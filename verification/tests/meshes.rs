//! Trial meshes of assembled fragments and packages for an external mesher.
use geo::{Area, Contains, Coord, Intersects, Line, LineString, Point as PlanPoint, Polygon};
use geo::line_intersection::{LineIntersection, line_intersection};
use glam::{DQuat, DVec2, DVec3};
use spade::{
    AngleLimit, ConstrainedDelaunayTriangulation, Point2, PositionInTriangulation, RefinementParameters,
    Triangulation,
};
use std::collections::{BTreeMap, BTreeSet};
use topo_reconstruct::edges::Edge;
use topo_reconstruct::incidence::Incidence;
use topo_reconstruct::input::{ElementData, MeshData, Point};
use topo_reconstruct::points::PointTable;
use topo_reconstruct::reconstruction::{
    Model, PlaneFrame, RingMeasure, Surface, assembly, frame, gmsh, mesh, planes, recognize, reconcile,
};
use topo_reconstruct::reconstruction::assembly::{
    Region, RejectedVertex, bars, begin, flatten_regions, pinched_region_splits, property_regions,
    supports_stay_close,
};
use topo_reconstruct::reconstruction::assembly::bars::{
    Anchor, AnchorMeasure, Axis, AxisMeasure, Contact, Interval, Location, merge_intervals, ordered_anchors,
};
use topo_reconstruct::reconstruction::assembly::bars::axes::{
    AxisBuild, AxisTrial, Placement, Stretch, surfaces_at_node, touched_surfaces,
};
use topo_reconstruct::reconstruction::assembly::bars::joints::{
    Joint, JointState, common_planes, find_joint, joint_state, joints,
};
use topo_reconstruct::reconstruction::assembly::boundary::{Face, boundary};
use topo_reconstruct::reconstruction::assembly::features::SimplifiedHole;
use topo_reconstruct::reconstruction::assembly::holes::{
    HoleConstraint, NodeTrial, Recovery, RegionRings, common_supports,
};
use topo_reconstruct::reconstruction::assembly::supports::{
    Closure, NodeSurfaces, Supports, boundary_owners, close, junction,
};
use topo_reconstruct::reconstruction::assembly::surfaces::{SurfaceBuild, exterior_first};
use topo_reconstruct::reconstruction::axes::{AngleLimits, Direction, lean};
use topo_reconstruct::reconstruction::frame::{
    ConstraintFailure, ConstraintOrigin, Outcome, Prepared, conclude, prepare,
};
use topo_reconstruct::reconstruction::frame::equations::{Constraint, constraints, worst_failures};
use topo_reconstruct::reconstruction::frame::segments::{NodeOwners, select_spans, split as split_axis};
use topo_reconstruct::reconstruction::gmsh::Geometry;
use topo_reconstruct::reconstruction::mesh::{
    AxisPlace, HoleSize, MeshBuild, QualityBounds, SpanBand, axis_bars, compute_external_mesher_blockers,
    constraints, find_unresolved_hole, promote_vertex,
};
use topo_reconstruct::reconstruction::mesh::chains::{ChainNode, check_distinct, order_chain, subdivide};
use topo_reconstruct::reconstruction::mesh::constraints::{
    AxisBand, EndpointRole, NodeMeasure, Synchronizer, check_axis, edge_candidates, edge_owners, insert_axis_node,
    interval_parameters, point_parameter, summarize, surface_edges,
};
use topo_reconstruct::reconstruction::mesh::domain::{
    AngleStep, FaceLink, SeedStep, angle_step, interior, material_regions, seed_step, vertices_left,
};
use topo_reconstruct::reconstruction::mesh::faces::{
    FaceLimits, FaceMeasure, QualityReason, count_sides, face_reasons, is_conforming, region_boundary,
    region_constraints, rename_faces,
};
use topo_reconstruct::reconstruction::mesh::surface::{
    IntervalMeasure, SurfaceConstraints, closed_vertices, surface_constraints,
};
use topo_reconstruct::reconstruction::planes::{PlaneFit, coplanar_groups, facet_pairs, survey_shells};
use topo_reconstruct::reconstruction::recognize::{
    Bar, ChordMeasure, RecognizedAxis, SourceAnchor, SourceSpan, chains, meeting_halves, mutual_links, survey,
};
use topo_reconstruct::reconstruction::reconcile::{DecisionStatus, OperationKind, ProblemKind};
use topo_reconstruct::reconstruction::reconcile::problems::{ScaleMeasure, locate_problems, scale_sides};
use topo_reconstruct::registry::Registry;
use topo_reconstruct::scalar::Scalar;

fn scalar(value: f64) -> Scalar {
    Scalar { bits: value.to_bits() }
}

fn number(value: Scalar) -> f64 {
    f64::from_bits(value.bits)
}

fn scalars(values: impl IntoIterator<Item = f64>) -> Vec<Scalar> {
    values.into_iter().map(scalar).collect()
}

fn point(v: DVec3) -> Point {
    [scalar(v.x), scalar(v.y), scalar(v.z)]
}

fn vector(p: &Point) -> DVec3 {
    DVec3::new(number(p[0]), number(p[1]), number(p[2]))
}

/// The plane of least squares through points, by Jacobi rotations of their
/// covariance. A single straight line does not determine one.
fn fit(points: &[DVec3], reference: DVec3) -> Option<(DVec3, f64)> {
    if points.len() < 3 {
        return None;
    }
    let center = points.iter().copied().sum::<DVec3>() / points.len() as f64;
    let mut a = [[0.0; 3]; 3];
    let mut v = [[1.0, 0.0, 0.0], [0.0, 1.0, 0.0], [0.0, 0.0, 1.0]];
    for p in points {
        let d = (*p - center).to_array();
        for i in 0..3 {
            for j in 0..3 {
                a[i][j] += d[i] * d[j];
            }
        }
    }
    let scale = a[0][0] + a[1][1] + a[2][2];
    if scale <= 1e-20 {
        return None;
    }
    for _ in 0..40 {
        let (p, q) = [(0, 1), (0, 2), (1, 2)]
            .into_iter()
            .max_by(|&(p, q): &(usize, usize), &(i, j): &(usize, usize)| a[p][q].abs().total_cmp(&a[i][j].abs()))?;
        if a[p][q].abs() < scale * 1e-14 {
            break;
        }
        let angle = 0.5 * (2.0 * a[p][q]).atan2(a[q][q] - a[p][p]);
        let (c, s) = (angle.cos(), angle.sin());
        let (app, aqq, apq) = (a[p][p], a[q][q], a[p][q]);
        a[p][p] = c * c * app - 2.0 * c * s * apq + s * s * aqq;
        a[q][q] = s * s * app + 2.0 * c * s * apq + c * c * aqq;
        a[p][q] = 0.0;
        a[q][p] = 0.0;
        for k in 0..3 {
            if k != p && k != q {
                let (x, y) = (a[k][p], a[k][q]);
                a[k][p] = c * x - s * y;
                a[p][k] = a[k][p];
                a[k][q] = s * x + c * y;
                a[q][k] = a[k][q];
            }
            let (x, y) = (v[k][p], v[k][q]);
            v[k][p] = c * x - s * y;
            v[k][q] = s * x + c * y;
        }
    }
    let mut order = [0, 1, 2];
    order.sort_by(|&i: &usize, &j: &usize| a[i][i].total_cmp(&a[j][j]));
    if a[order[1]][order[1]] < scale * 1e-10 {
        return None;
    }
    let k = order[0];
    let mut n = DVec3::new(v[0][k], v[1][k], v[2][k]).normalize();
    if n.dot(reference) < 0.0 {
        n = -n;
    }
    Some((n, -n.dot(center)))
}

/// Where a node is, unless it is unknown or not finite.
fn place(mesh: &MeshData, node: u32) -> Option<DVec3> {
    mesh.nodes.get(node).map(|p| vector(&p)).filter(|p| p.is_finite())
}

/// A frame of the plane through a point and across a direction.
fn plane_frame(origin: DVec3, direction: DVec3) -> Option<PlaneFrame> {
    let length = direction.length();
    if !origin.is_finite() || !direction.is_finite() || !length.is_finite() || length == 0.0 {
        return None;
    }
    let normal = direction.normalize();
    let helper = if normal.z.abs() < 0.9 { DVec3::Z } else { DVec3::X };
    let u = helper.cross(normal).normalize();
    let v = normal.cross(u);
    Some(PlaneFrame { origin: point(origin), normal: point(normal), u: point(u), v: point(v) })
}

/// The coordinates of a point in a frame.
fn project(frame: &PlaneFrame, p: DVec3) -> [f64; 2] {
    let d = p - vector(&frame.origin);
    [d.dot(vector(&frame.u)), d.dot(vector(&frame.v))]
}

/// The signed distance of a point from a plane.
fn distance(frame: &PlaneFrame, p: DVec3) -> f64 {
    (p - vector(&frame.origin)).dot(vector(&frame.normal))
}

/// The point of a plane at given coordinates.
fn lift(frame: &PlaneFrame, uv: [f64; 2]) -> DVec3 {
    vector(&frame.origin) + uv[0] * vector(&frame.u) + uv[1] * vector(&frame.v)
}

fn chord(mesh: &MeshData, nodes: &[u32], angle: f64) -> ChordMeasure {
    let points: Vec<DVec3> = nodes.iter().map(|&n| place(mesh, n).unwrap_or(DVec3::NAN)).collect();
    let (a, b) = (points[0], points[points.len() - 1]);
    let delta = b - a;
    let length = delta.length();
    let parameters: Vec<f64> = points.iter().map(|p| (*p - a).dot(delta) / delta.length_squared()).collect();
    let distances = scalars(points.iter().zip(&parameters).map(|(p, t)| p.distance(a + *t * delta)));
    let along = points
        .windows(2)
        .map(|w| !((w[1] - w[0]).normalize().dot(delta / length) < angle.cos()))
        .collect();
    ChordMeasure {
        endpoints: [point(a), point(b)],
        length: scalar(length),
        parameters: scalars(parameters),
        distances,
        along,
    }
}

fn half_direction(mesh: &MeshData, bars: &[Bar], half: usize) -> DVec3 {
    let ends = bars[half / 2].ends;
    let here = place(mesh, ends[half % 2]).unwrap_or(DVec3::NAN);
    let there = place(mesh, ends[1 - half % 2]).unwrap_or(DVec3::NAN);
    (there - here).normalize()
}

/// Recovers continuous straight axes.
fn axes(mesh: &MeshData, policy: &recognize::Policy) -> Result<recognize::Report, &'static str> {
    let lengths = mesh
        .elements
        .iter()
        .map(|e| {
            let ends: Vec<DVec3> = e.nodes.iter().filter_map(|&n| place(mesh, n)).collect();
            scalar(if ends.len() == 2 { ends[0].distance(ends[1]) } else { 0.0 })
        })
        .collect();
    let found = survey(mesh, policy, &lengths)?;
    let (mut report, bars) = recognize::Report::start(policy, found);
    let angle = number(policy.angle);
    let opposed = meeting_halves(&bars)
        .into_iter()
        .filter(|&(a, b)| half_direction(mesh, &bars, a).dot(half_direction(mesh, &bars, b)) <= -angle.cos())
        .collect();
    let links = mutual_links(&bars, &opposed);
    let incidence = Incidence::of_mesh(mesh);
    for chain in chains(mesh, &bars, &links) {
        if chain.path.is_empty() {
            let measures = chain.members.iter().map(|&b| chord(mesh, &bars[b].ends, angle)).collect();
            report.take_ring(mesh, &incidence, &bars, &chain.members, &measures)?;
        } else {
            let n = chain.path.len();
            let stretches = (0..n)
                .map(|i| (i + 1..=n).map(|j| chord(mesh, &chain.nodes[i..=j], angle)).collect())
                .collect();
            report.take_path(mesh, &incidence, &bars, &chain.members, &chain.path, &chain.nodes, &stretches)?;
        }
    }
    Ok(report)
}

fn center(points: &[DVec3]) -> DVec3 {
    points.iter().copied().sum::<DVec3>() / points.len() as f64
}

/// The perimeter of a convex shell, whatever the order of its nodes.
fn ordered_facet_nodes(mesh: &MeshData, e: &ElementData, normal: DVec3, precision: f64) -> Option<Vec<u32>> {
    if !e.is_shell() || e.nodes.iter().collect::<BTreeSet<_>>().len() != e.nodes.len() {
        return None;
    }
    let points: Vec<DVec3> = e.nodes.iter().map(|&n| place(mesh, n)).collect::<Option<_>>()?;
    let middle = center(&points);
    let frame = plane_frame(middle, normal)?;
    let turn = |p: DVec3| {
        let [x, y] = project(&frame, p);
        y.atan2(x)
    };
    let mut order: Vec<usize> = (0..points.len()).collect();
    order.sort_by(|&i, &j| turn(points[i]).total_cmp(&turn(points[j])));
    let at = |i: usize| points[order[i % order.len()]];
    for i in 0..order.len() {
        let (a, b, c) = (at(i), at(i + 1), at(i + 2));
        if a.distance(b) <= precision || (b - a).cross(c - b).dot(normal) <= precision * precision {
            return None;
        }
    }
    Some(order.into_iter().map(|i| e.nodes[i]).collect())
}

fn perimeter(mesh: &MeshData, e: &ElementData, policy: &planes::Policy) -> Option<Vec<u32>> {
    let points: Vec<DVec3> = e.nodes.iter().map(|&n| place(mesh, n)).collect::<Option<_>>()?;
    let (n, _) = fit(&points, DVec3::Z)?;
    let middle = center(&points);
    if points.iter().any(|p| n.dot(*p - middle).abs() > number(policy.distance)) {
        return None;
    }
    ordered_facet_nodes(mesh, e, n, number(policy.precision))
}

fn places(mesh: &MeshData, nodes: &[u32]) -> Vec<DVec3> {
    nodes.iter().filter_map(|&n| place(mesh, n)).collect()
}

/// Recovers connected planar patches.
fn patches(mesh: &MeshData, policy: &planes::Policy) -> Result<planes::Report, &'static str> {
    let perimeters = mesh
        .elements
        .iter()
        .map(|e| if e.is_shell() { perimeter(mesh, e, policy) } else { None })
        .collect();
    let found = survey_shells(mesh, policy, &perimeters)?;
    let (mut report, facets) = planes::Report::start(policy, found);
    let (angle, distance) = (number(policy.angle), number(policy.distance));
    let spread: Vec<(DVec3, DVec3, Vec<DVec3>)> = facets
        .iter()
        .map(|f| {
            let own = places(mesh, &mesh.elements[f.element].nodes);
            let normal = fit(&own, DVec3::Z).map_or(DVec3::NAN, |f| f.0);
            (normal, center(&own), own)
        })
        .collect();
    let pairs = facet_pairs(&facets);
    let coplanar = pairs
        .iter()
        .map(|&(a, b)| {
            let ((x, cx, px), (y, cy, py)) = (&spread[a], &spread[b]);
            x.dot(*y).abs() >= angle.cos()
                && py.iter().all(|p| x.dot(*p - *cx).abs() <= distance)
                && px.iter().all(|p| y.dot(*p - *cy).abs() <= distance)
        })
        .collect();
    let measure = |group: &[usize]| -> Option<PlaneFit> {
        let nodes: BTreeSet<u32> = group.iter().flat_map(|&f| facets[f].nodes.iter().copied()).collect();
        let points: Vec<DVec3> = nodes.iter().filter_map(|&n| place(mesh, n)).collect();
        let (normal, _) = fit(&points, spread[*group.first()?].0)?;
        let middle = center(&points);
        Some(PlaneFit {
            plane: plane_frame(middle, normal)?,
            maximum_deviation: scalar(points.iter().map(|p| normal.dot(*p - middle).abs()).fold(0.0, f64::max)),
            aligned: group.iter().map(|&f| !(normal.dot(spread[f].0).abs() < angle.cos())).collect(),
        })
    };
    for group in coplanar_groups(&facets, &pairs, &coplanar) {
        let singles = group.iter().map(|&f| measure(&[f])).collect();
        report.take_group(&facets, &group, measure(&group), singles)?;
    }
    Ok(report)
}

struct Equation {
    terms: Vec<(usize, f64)>,
    origin: ConstraintOrigin,
}

impl Equation {
    fn residual(&self, x: &[f64]) -> f64 {
        self.terms.iter().map(|&(i, a)| a * x[i]).sum()
    }
}

fn equation(terms: Vec<(usize, f64)>, origin: ConstraintOrigin) -> Equation {
    let mut combined = BTreeMap::<usize, f64>::new();
    for (i, a) in terms {
        *combined.entry(i).or_default() += a;
    }
    Equation { terms: combined.into_iter().filter(|(_, a)| a.abs() > 1e-14).collect(), origin }
}

/// The equations of the solved nodes and supports, with the directions that the
/// supports take.
fn set_up(prepared: &Prepared, policy: &frame::Policy, center: DVec3) -> (Vec<Equation>, Vec<f64>, Vec<DVec3>) {
    let (angle, up) = (number(policy.angle), vector(&policy.up).normalize());
    let limits = AngleLimits { cosine: scalar(angle.cos()), sine: scalar(angle.sin()) };
    let helper = if up.z.abs() < 0.9 { DVec3::Z } else { DVec3::X };
    let u = helper.cross(up).normalize();
    let v = up.cross(u);
    let reference: Vec<DVec3> = prepared.reference.iter().map(vector).collect();
    let mut x: Vec<f64> = reference.iter().flat_map(|p| (*p - center).to_array()).collect();
    let base = x.len();
    let mut normals = Vec::new();
    for surface in &prepared.surfaces {
        let old = vector(&surface.plane.normal);
        let cosine = old.dot(up);
        let normal = match lean(&scalar(cosine.abs()), &limits) {
            Direction::Vertical => up * cosine.signum(),
            Direction::Horizontal => (old - up * cosine).normalize(),
            Direction::Inclined => old,
        };
        let origin =
            surface.nodes.iter().map(|&n| reference[n] - center).sum::<DVec3>() / surface.nodes.len() as f64;
        x.push(normal.dot(origin));
        normals.push(normal);
    }
    let directions: Vec<Direction> = prepared
        .axes
        .iter()
        .map(|axis| {
            let [a, b] = axis.endpoints;
            lean(&scalar((reference[b] - reference[a]).normalize().dot(up).abs()), &limits)
        })
        .collect();
    let terms = |c: &Constraint| match c.origin {
        ConstraintOrigin::AxisAnchor { axis, component: k, .. } => {
            let [a, b] = prepared.axes[axis].endpoints;
            let anchor = &prepared.axes[axis].anchors[c.place];
            let t = number(anchor.t);
            vec![(anchor.node * 3 + k, 1.), (a * 3 + k, -(1. - t)), (b * 3 + k, -t)]
        }
        ConstraintOrigin::AxisDirection { axis } => {
            let [a, b] = prepared.axes[axis].endpoints;
            let n = if directions[axis] == Direction::Vertical { [u, v][c.place] } else { up };
            (0..3).flat_map(|k| [(a * 3 + k, n[k]), (b * 3 + k, -n[k])]).collect()
        }
        ConstraintOrigin::PlaneIncidence { plane, .. } => {
            let (n, normal) = (prepared.surfaces[plane].nodes[c.place], normals[plane]);
            vec![(n * 3, normal.x), (n * 3 + 1, normal.y), (n * 3 + 2, normal.z), (base + plane, -1.)]
        }
        ConstraintOrigin::ShortAxisVector { .. } => Vec::new(),
    };
    let mut equations: Vec<Equation> =
        constraints(prepared, &directions).iter().map(|c| equation(terms(c), c.origin)).collect();
    equations.retain(|e| !e.terms.is_empty());
    (equations, x, normals)
}

fn greatest_residual(equations: &[Equation], x: &[f64]) -> f64 {
    equations.iter().map(|e| e.residual(x).abs()).fold(0.0, f64::max)
}

/// Projection with the least displacement onto the common linear constraints, by
/// preconditioned conjugate gradients. Redundant incidences are permitted.
fn project_onto(equations: &[Equation], x: &mut [f64], limit: usize, tolerance: f64) -> (f64, usize) {
    let mut r: Vec<f64> = equations.iter().map(|e| e.residual(x)).collect();
    let diagonal: Vec<f64> = equations.iter().map(|e| e.terms.iter().map(|(_, a)| a * a).sum()).collect();
    let mut direction: Vec<f64> = r.iter().zip(&diagonal).map(|(r, d)| r / d).collect();
    let mut rz: f64 = r.iter().zip(&direction).map(|(a, b)| a * b).sum();
    let mut residual = r.iter().map(|v| v.abs()).fold(0.0, f64::max);
    let mut iterations = 0;
    for step in 0..limit {
        if residual <= tolerance {
            break;
        }
        let mut transpose = vec![0.0; x.len()];
        for (e, p) in equations.iter().zip(&direction) {
            for &(i, a) in &e.terms {
                transpose[i] += a * p;
            }
        }
        let denominator: f64 = transpose.iter().map(|v| v * v).sum();
        if !denominator.is_finite() || denominator <= 1e-30 {
            break;
        }
        let alpha = rz / denominator;
        for (xi, di) in x.iter_mut().zip(&transpose) {
            *xi -= alpha * di;
        }
        for (ri, e) in r.iter_mut().zip(equations) {
            *ri -= alpha * e.residual(&transpose);
        }
        // The true residual decides: a residual carried along can drift.
        residual = greatest_residual(equations, x);
        iterations = step + 1;
        let next: f64 = r.iter().zip(&diagonal).map(|(r, d)| r * r / d).sum();
        if !next.is_finite() || rz <= 1e-30 {
            break;
        }
        let beta = next / rz;
        for ((p, r), d) in direction.iter_mut().zip(&r).zip(&diagonal) {
            *p = r / d + beta * (*p);
        }
        rz = next;
    }
    (residual, iterations)
}

/// Solves for nodes and supports together.
fn solve(
    mesh: &MeshData,
    axes: &recognize::Report,
    planes: &planes::Report,
    policy: &frame::Policy,
) -> Result<frame::Report, &'static str> {
    let lengths: Vec<f64> = axes
        .axes
        .iter()
        .map(|a| {
            let ends = a.endpoint_nodes.map(|n| place(mesh, n).unwrap_or(DVec3::NAN));
            ends[0].distance(ends[1])
        })
        .collect();
    let caps = scalars(
        lengths.iter().map(|l| number(policy.maximum_movement).min(number(policy.relative_movement) * l)),
    );
    let source_lengths = scalars(lengths.iter().copied());
    let up = scalar(vector(&policy.up).length());
    let prepared = prepare(mesh, &axes.axes, &planes.patches, policy, &up, &source_lengths, &caps)?;
    let reference: Vec<DVec3> = prepared.reference.iter().map(vector).collect();
    let center = reference.first().copied().unwrap_or(DVec3::ZERO);
    let (equations, mut x, normals) = set_up(&prepared, policy, center);
    let tolerance = number(policy.residual_tolerance);
    let (residual, iterations) = project_onto(&equations, &mut x, policy.iterations, tolerance);
    let base = reference.len() * 3;
    let candidate: Vec<DVec3> = (0..reference.len())
        .map(|i| center + DVec3::new(x[i * 3], x[i * 3 + 1], x[i * 3 + 2]))
        .collect();
    let origins = equations.iter().map(|e| e.origin).collect();
    let residuals = scalars(equations.iter().map(|e| e.residual(&x).abs()));
    let (violating_equations, failures) = worst_failures(&origins, &residuals, &policy.residual_tolerance, 20);
    let span = |axis: &[usize; 2], points: &[DVec3]| points[axis[1]] - points[axis[0]];
    let outcome = Outcome {
        iterations,
        residual: scalar(residual),
        equation_count: equations.len(),
        violating_equations,
        movements: scalars(candidate.iter().zip(&reference).map(|(p, o)| p.distance(*o))),
        limits: scalars(prepared.budgets.iter().map(|b| number(*b) + 1e-10)),
        axes_hold: prepared
            .axes
            .iter()
            .map(|a| {
                let (d, old) = (span(&a.endpoints, &candidate), span(&a.endpoints, &reference));
                d.length() >= number(policy.minimum_length).min(old.length()) && d.dot(old) > 0.0
            })
            .collect(),
        candidate_lengths: scalars(prepared.axes.iter().map(|a| span(&a.endpoints, &candidate).length())),
        planes: prepared
            .surfaces
            .iter()
            .enumerate()
            .map(|(i, s)| {
                let (origin, n) = (vector(&s.plane.origin), normals[i]);
                plane_frame(origin + n * (x[base + i] - n.dot(origin - center)), n)
            })
            .collect(),
        plane_families: Vec::new(),
        constraint_failures: failures,
        candidate: candidate.into_iter().map(point).collect(),
    };
    conclude(policy, prepared, outcome, &source_lengths)
}

fn polygon(contour: &[[f64; 2]]) -> Polygon<f64> {
    Polygon::new(
        LineString::from(contour.iter().chain(contour.first()).map(|p| (p[0], p[1])).collect::<Vec<_>>()),
        vec![],
    )
}

/// Whether a contour has area and neither crosses nor folds back on itself.
fn is_simple(points: &[[f64; 2]], epsilon: f64) -> bool {
    let n = points.len();
    if n == 0 {
        return false;
    }
    let side = |i: usize| {
        let (a, b) = (points[i], points[(i + 1) % n]);
        Line::new((a[0], a[1]), (b[0], b[1]))
    };
    let turn = |o: [f64; 2], a: [f64; 2], b: [f64; 2]| (a[0] - o[0]) * (b[1] - o[1]) - (a[1] - o[1]) * (b[0] - o[0]);
    let area: f64 = (0..n).map(|i| turn(points[0], points[i], points[(i + 1) % n])).sum();
    if !area.is_finite() || area.abs() <= epsilon * epsilon {
        return false;
    }
    (0..n).all(|i| {
        let apart = (i + 2..n).filter(|&j| !(i == 0 && j == n - 1)).all(|j| !side(i).intersects(&side(j)));
        let (a, b, c) = (points[(i + n - 1) % n], points[i], points[(i + 1) % n]);
        let dot = (a[0] - b[0]) * (c[0] - b[0]) + (a[1] - b[1]) * (c[1] - b[1]);
        apart && !(turn(b, a, c).abs() <= epsilon * epsilon && dot > 0.0)
    })
}

/// What a surface's rings measure in the frame of its plane.
fn measure_rings(frame: &PlaneFrame, rings: &[Vec<DVec3>], precision: f64) -> Vec<RingMeasure> {
    let contours: Vec<Vec<[f64; 2]>> =
        rings.iter().map(|r| r.iter().map(|p| project(frame, *p)).collect()).collect();
    rings
        .iter()
        .zip(&contours)
        .enumerate()
        .map(|(k, (ring, uv))| {
            let own = polygon(uv);
            RingMeasure {
                offsets: scalars(ring.iter().map(|p| distance(frame, *p).abs())),
                contour: uv.iter().map(|p| [scalar(p[0]), scalar(p[1])]).collect(),
                lengths: scalars((0..uv.len()).map(|i| {
                    let (a, b) = (uv[i], uv[(i + 1) % uv.len()]);
                    (a[0] - b[0]).hypot(a[1] - b[1])
                })),
                simple: is_simple(uv, precision),
                inside: k == 0 || {
                    let outer = polygon(&contours[0]);
                    outer.contains(&own) && !outer.exterior().intersects(own.exterior())
                },
                clear_of: (0..k).map(|j| j == 0 || !polygon(&contours[j]).intersects(&own)).collect(),
            }
        })
        .collect()
}

/// The least movement onto all planes; planes that do not meet are refused.
fn intersection(p: DVec3, planes: &[&PlaneFrame], precision: f64) -> Option<DVec3> {
    let mut basis: Vec<(DVec3, f64)> = Vec::new();
    for plane in planes {
        let mut n = vector(&plane.normal);
        let mut rhs = -distance(plane, p);
        for &(q, t) in &basis {
            let a = n.dot(q);
            n -= a * q;
            rhs -= a * t;
        }
        let length = n.length();
        if length > 1e-10 && basis.len() < 3 {
            basis.push((n / length, rhs / length));
        }
    }
    let result = p + basis.iter().map(|(n, t)| *n * *t).sum::<DVec3>();
    (result.is_finite() && planes.iter().all(|f| distance(f, result).abs() <= precision)).then_some(result)
}

/// Moves support offsets so that the supports of every junction meet; normals stay.
fn concurrent_supports(planes: &[PlaneFrame], junctions: &[Vec<usize>]) -> Vec<PlaneFrame> {
    let Some(first) = planes.first() else {
        return Vec::new();
    };
    let center = vector(&first.origin);
    let offsets: Vec<f64> =
        planes.iter().map(|p| vector(&p.normal).dot(vector(&p.origin) - center)).collect();
    let mut constraints: Vec<Vec<f64>> = Vec::new();
    let reduce = |row: &mut Vec<f64>, other: &[f64], a: f64| {
        for (v, b) in row.iter_mut().zip(other) {
            *v -= a * b;
        }
    };
    for junction in junctions {
        let mut basis: Vec<(DVec3, Vec<f64>)> = Vec::new();
        for &i in junction {
            let mut n = vector(&planes[i].normal);
            let mut row = vec![0.; planes.len()];
            row[i] = 1.;
            for (q, r) in &basis {
                let a = n.dot(*q);
                n -= a * *q;
                reduce(&mut row, r, a);
            }
            let length = n.length();
            if length > 1e-10 && basis.len() < 3 {
                row.iter_mut().for_each(|v| *v /= length);
                basis.push((n / length, row));
                continue;
            }
            // Twice, so that repeated rows are not amplified.
            for _ in 0..2 {
                for q in &constraints {
                    let a: f64 = row.iter().zip(q).map(|(a, b)| a * b).sum();
                    reduce(&mut row, q, a);
                }
            }
            let length = row.iter().map(|v| v * v).sum::<f64>().sqrt();
            if length > 1e-10 {
                row.iter_mut().for_each(|v| *v /= length);
                constraints.push(row);
            }
        }
    }
    let mut corrected = offsets.clone();
    for row in constraints {
        let error: f64 = row.iter().zip(&offsets).map(|(a, b)| a * b).sum();
        reduce(&mut corrected, &row, error);
    }
    planes
        .iter()
        .enumerate()
        .map(|(i, p)| PlaneFrame {
            origin: point(vector(&p.origin) + vector(&p.normal) * (corrected[i] - offsets[i])),
            ..*p
        })
        .collect()
}

/// How far a node may move from its source.
fn movement_budget(mesh: &MeshData, source: &frame::Report, index: usize) -> f64 {
    let mut budget = number(source.policy.maximum_movement);
    for axis in &source.axes {
        if axis.anchors.iter().any(|a| a.node == index) {
            let ends = axis.endpoints.map(|i| place(mesh, source.node_ids[i]).unwrap_or(DVec3::NAN));
            budget = budget.min(number(source.policy.relative_movement) * ends[0].distance(ends[1]));
        }
    }
    budget
}

fn area(uv: &[[f64; 2]]) -> f64 {
    (0..uv.len())
        .map(|i| {
            let (a, b, o) = (uv[i], uv[(i + 1) % uv.len()], uv[0]);
            (a[0] - o[0]) * (b[1] - o[1]) - (a[1] - o[1]) * (b[0] - o[0])
        })
        .sum::<f64>()
        .abs()
        / 2.
}

fn ring_area(plane: &PlaneFrame, ring: &[DVec3]) -> f64 {
    area(&ring.iter().map(|p| project(plane, *p)).collect::<Vec<_>>())
}

fn source_points(mesh: &MeshData, ring: &[u32]) -> Vec<DVec3> {
    ring.iter().map(|&n| place(mesh, n).unwrap_or(DVec3::NAN)).collect()
}

fn normal_rank(indices: &[usize], supports: &[PlaneFrame]) -> usize {
    let mut basis: Vec<DVec3> = Vec::new();
    for &i in indices {
        let mut n = vector(&supports[i].normal);
        for _ in 0..2 {
            for &q in &basis {
                n -= q * q.dot(n);
            }
        }
        if n.length() > 1e-10 && basis.len() < 3 {
            basis.push(n.normalize());
        }
    }
    basis.len()
}

/// Whether rings make a surface of their own, nodes taken where `at` has them.
fn rings_hold(
    plane: &PlaneFrame,
    loops: &[Vec<u32>],
    at: &dyn Fn(u32) -> Option<DVec3>,
    policy: &assembly::Policy,
) -> bool {
    let Ok(mut model) = Model::new(policy.precision, policy.minimum_edge) else {
        return false;
    };
    let frame = model.add_plane(*plane);
    let mut vertices = BTreeMap::new();
    for &n in loops.iter().flatten() {
        let Some(p) = at(n) else {
            return false;
        };
        if !vertices.contains_key(&n) {
            let Ok(v) = model.add_vertex(point(p)) else {
                return false;
            };
            vertices.insert(n, v);
        }
    }
    let points: Vec<Vec<DVec3>> =
        loops.iter().map(|r| r.iter().map(|&n| at(n).unwrap_or(DVec3::NAN)).collect()).collect();
    let rings = loops.iter().map(|r| r.iter().map(|n| vertices[n]).collect()).collect();
    let measures = measure_rings(plane, &points, number(policy.precision));
    model.add_surface(frame, rings, Vec::new(), measures).is_ok()
}

fn find_supports(source: &frame::Report, tolerance: f64) -> Vec<usize> {
    let mut supports = Supports::new(&source.surfaces);
    let candidates: Vec<DVec3> = source.candidate_points.iter().map(vector).collect();
    while let Some(master) = supports.next_master() {
        let plane = &source.candidate_planes[master];
        let compatible = source
            .surfaces
            .iter()
            .zip(&source.candidate_planes)
            .map(|(s, other)| {
                vector(&plane.normal).dot(vector(&other.normal)).abs() >= number(source.policy.angle).cos()
                    && s.nodes.iter().all(|&n| distance(plane, candidates[n]).abs() <= tolerance)
            })
            .collect();
        supports.absorb(&source.surfaces, master, &compatible);
    }
    supports.representatives().clone()
}

/// Recovers openings on fixed supports.
#[allow(clippy::too_many_arguments)]
fn recover_holes(
    mesh: &MeshData,
    source: &frame::Report,
    policy: &assembly::Policy,
    regions: &[Region],
    rings: &Vec<RegionRings>,
    owners: &Vec<NodeSurfaces>,
    representatives: &Vec<usize>,
    supports: &[PlaneFrame],
    points: PointTable,
) -> Recovery {
    let precision = number(policy.precision);
    let mut recovery = Recovery::new(points);
    let support = |region: usize| &supports[representatives[regions[region].patch]];
    let met = |node: u32, from: DVec3| {
        let own = owners.iter().find(|o| o.node == node)?;
        let planes: Vec<&PlaneFrame> = own.surfaces.iter().map(|&s| &supports[representatives[s]]).collect();
        intersection(from, &planes, precision)
    };
    for entry in rings {
        let (plane, loops) = (support(entry.region), &entry.loops);
        let now = |n: u32| recovery.points.get(n).map(|p| vector(&p));
        if loops.len() < 2 || rings_hold(plane, loops, &now, policy) {
            continue;
        }
        let constraints = loops[1..]
            .iter()
            .map(|ring| {
                let common = common_supports(ring, owners, representatives);
                HoleConstraint {
                    source_nodes: ring.clone(),
                    normal_rank: normal_rank(&common, supports),
                    common_supports: common,
                }
            })
            .collect();
        let flat = |n: u32| place(mesh, n).map(|p| lift(plane, project(plane, p)));
        let source_valid = rings_hold(plane, loops, &flat, policy);
        let trials = loops[1..]
            .iter()
            .flatten()
            .map(|&node| {
                let reference = place(mesh, node).unwrap_or(DVec3::NAN);
                let index = source.node_ids.iter().position(|n| *n == node).unwrap_or(0);
                let target = met(node, reference);
                let q = target.unwrap_or(DVec3::NAN);
                NodeTrial {
                    node,
                    index,
                    closed: now(node).is_some(),
                    target: target.map(point),
                    from_current: scalar(now(node).map_or(f64::NAN, |p| q.distance(p))),
                    from_candidate: scalar(q.distance(vector(&source.candidate_points[index]))),
                    from_reference: scalar(q.distance(reference)),
                    allowance: scalar(movement_budget(mesh, source, index) + precision),
                }
            })
            .collect();
        let region = &regions[entry.region];
        recovery.propose(
            region.patch,
            region.elements.clone(),
            constraints,
            source_valid,
            &trials,
            rings,
            &source.axes,
            policy,
        );
    }
    for group in recovery.groups() {
        let affected: BTreeSet<usize> =
            group.iter().flat_map(|&i| recovery.attempts[i].affected.iter().copied()).collect();
        let then = |n: u32| recovery.proposed(&group, n).map(|p| vector(&p));
        let valid = rings
            .iter()
            .filter(|e| affected.contains(&e.region))
            .all(|e| rings_hold(support(e.region), &e.loops, &then, policy));
        recovery.settle(&group, valid);
    }
    recovery
}

/// Assembles the surfaces and axes of a solved frame.
fn assemble(mesh: &MeshData, source: &frame::Report, policy: &assembly::Policy) -> Result<assembly::Report, &'static str> {
    let model = begin(source, policy)?;
    let precision = number(policy.precision);
    let index: BTreeMap<u32, usize> = mesh.elements.iter().enumerate().map(|(i, e)| (e.id, i)).collect();
    let mut perimeters = vec![None; mesh.elements.len()];
    for (surface, plane) in source.surfaces.iter().zip(&source.candidate_planes) {
        for e in surface.source_elements.iter().filter_map(|id| index.get(id)) {
            perimeters[*e] = ordered_facet_nodes(mesh, &mesh.elements[*e], vector(&plane.normal), precision);
        }
    }
    let groups = property_regions(mesh, &source.surfaces, &perimeters)?;
    let splits = pinched_region_splits(&groups);
    let regions = flatten_regions(&groups);
    let mut unbounded = Vec::new();
    let mut rings = Vec::new();
    for (i, region) in regions.iter().enumerate() {
        let faces = region
            .elements
            .iter()
            .map(|id| Face { id: *id, nodes: perimeters[index[id]].clone().unwrap_or_default() })
            .collect();
        match boundary(&faces) {
            Ok(found) => {
                let plane = &source.candidate_planes[region.patch];
                let areas = scalars(found.iter().map(|r| ring_area(plane, &source_points(mesh, r))));
                rings.push(RegionRings { region: i, loops: exterior_first(&found, &areas) });
            }
            Err(reason) => unbounded.push((i, reason)),
        }
    }
    let on_boundary: BTreeSet<u32> = rings.iter().flat_map(|r| r.loops.iter().flatten().copied()).collect();
    let owners = boundary_owners(&source.surfaces, &source.node_ids, &on_boundary.into_iter().collect())?;
    let representatives = find_supports(source, number(policy.closure_tolerance));
    let junctions: Vec<Vec<usize>> = owners.iter().map(|o| junction(&o.surfaces, &representatives)).collect();
    let candidates: Vec<DVec3> = source.candidate_points.iter().map(vector).collect();
    let moved = concurrent_supports(&source.candidate_planes, &junctions);
    let distances = source
        .surfaces
        .iter()
        .enumerate()
        .map(|(i, s)| {
            scalars(s.nodes.iter().map(|&n| distance(&moved[representatives[i]], candidates[n]).abs()))
        })
        .collect();
    let adjusted = supports_stay_close(&distances, &policy.closure_tolerance);
    let supports = if adjusted { moved } else { source.candidate_planes.clone() };
    let lookup: BTreeMap<u32, usize> = source.node_ids.iter().enumerate().map(|(i, &n)| (n, i)).collect();
    let mut rejected = Vec::new();
    let mut points = PointTable::new();
    for owner in &owners {
        let i = lookup[&owner.node];
        let reference = place(mesh, owner.node).ok_or("missing reference node")?;
        let planes: Vec<&PlaneFrame> = owner.surfaces.iter().map(|&s| &supports[representatives[s]]).collect();
        let met = intersection(candidates[i], &planes, precision);
        let q = met.unwrap_or(DVec3::NAN);
        let (movement, total) = (candidates[i].distance(q), q.distance(reference));
        let budget = movement_budget(mesh, source, i);
        match close(
            met.is_some(),
            &scalar(movement),
            &policy.junction_movement_limit,
            &scalar(total),
            &scalar(budget + precision),
        ) {
            Closure::Closed => points.insert(owner.node, point(q)),
            Closure::InconsistentSupports => rejected.push(RejectedVertex {
                source_node: owner.node,
                reason: "inconsistent_supports".into(),
            }),
            Closure::Movement => rejected.push(RejectedVertex {
                source_node: owner.node,
                reason: format!("movement: closure={movement}, total={total}, budget={budget}"),
            }),
        }
    }
    let recovery = recover_holes(
        mesh, source, policy, &regions, &rings, &owners, &representatives, &supports, points,
    );
    let points = recovery.points;
    let nodes: Vec<u32> = owners.iter().map(|o| o.node).filter(|&n| points.get(n).is_some()).collect();
    let closed: Vec<_> = nodes.iter().filter_map(|&n| points.get(n)).collect();
    let movements =
        scalars(nodes.iter().zip(&closed).map(|(n, p)| vector(p).distance(candidates[lookup[n]])));
    let mut build = SurfaceBuild::start(model, nodes, &closed)?;
    for (i, reason) in unbounded {
        build.leave_out(&regions[i], reason);
    }
    for RegionRings { region, loops } in rings {
        let region = &regions[region];
        let plane = supports[representatives[region.patch]];
        let places: Vec<Vec<DVec3>> = loops
            .iter()
            .map(|r| r.iter().map(|&n| points.get(n).map_or(DVec3::NAN, |p| vector(&p))).collect())
            .collect();
        let degenerate = places.iter().skip(1).any(|r| ring_area(&plane, r) <= precision * precision);
        let measures = measure_rings(&plane, &places, precision);
        build.add_region(region, loops, plane, measures, degenerate);
    }
    let axes = assemble_axes(mesh, source, &mut build, &supports, &representatives, policy)?;
    Ok(assembly::Report::new(
        policy,
        build,
        axes,
        splits,
        recovery.reports,
        Vec::new(),
        &movements,
        rejected,
        representatives,
        adjusted,
    ))
}

type Contours = Vec<Vec<[f64; 2]>>;

fn contours(surface: &Surface) -> Contours {
    surface.contours.iter().map(|r| r.iter().map(|p| [number(p[0]), number(p[1])]).collect()).collect()
}

fn material(contours: &Contours) -> Polygon<f64> {
    let ring = |r: &Vec<[f64; 2]>| {
        LineString::from(r.iter().chain(r.first()).map(|p| (p[0], p[1])).collect::<Vec<_>>())
    };
    Polygon::new(ring(&contours[0]), contours[1..].iter().map(ring).collect())
}

fn location(uv: [f64; 2], contours: &Contours, precision: f64) -> Option<Location> {
    let p = DVec2::from_array(uv);
    for ring in contours {
        for i in 0..ring.len() {
            let a = DVec2::from_array(ring[i]);
            let d = DVec2::from_array(ring[(i + 1) % ring.len()]) - a;
            let q = a + d * ((p - a).dot(d) / d.length_squared()).clamp(0., 1.);
            if p.distance(q) <= precision {
                return Some(Location::Boundary);
            }
        }
    }
    material(contours).contains(&PlanPoint::new(p.x, p.y)).then_some(Location::Interior)
}

/// Clips a coplanar axis to the material of a surface.
fn intervals(a: [f64; 2], b: [f64; 2], contours: &Contours, precision: f64) -> Vec<Interval> {
    let (a, b) = (DVec2::from_array(a), DVec2::from_array(b));
    let d = b - a;
    let length = d.length();
    if !(length > precision) {
        return Vec::new();
    }
    let line = Line::new((a.x, a.y), (b.x, b.y));
    let parameter = |x: Coord<f64>| ((DVec2::new(x.x, x.y) - a).dot(d) / d.length_squared()).clamp(0., 1.);
    let mut cuts = vec![0., 1.];
    for ring in contours {
        for i in 0..ring.len() {
            let (p, q) = (ring[i], ring[(i + 1) % ring.len()]);
            match line_intersection(line, Line::new((p[0], p[1]), (q[0], q[1]))) {
                Some(LineIntersection::SinglePoint { intersection, .. }) => cuts.push(parameter(intersection)),
                Some(LineIntersection::Collinear { intersection }) => {
                    cuts.push(parameter(intersection.start));
                    cuts.push(parameter(intersection.end));
                }
                None => {}
            }
        }
    }
    cuts.sort_by(f64::total_cmp);
    cuts.dedup_by(|a, b| (*a - *b).abs() * length <= precision);
    let kinds = cuts
        .windows(2)
        .map(|w| location((a + d * ((w[0] + w[1]) / 2.)).to_array(), contours, precision))
        .collect();
    merge_intervals(&scalars(cuts), &kinds)
}

struct Setting<'a> {
    mesh: &'a MeshData,
    source: &'a frame::Report,
    supports: &'a [PlaneFrame],
    joints: &'a Vec<Joint>,
    locked: BTreeMap<u32, DVec3>,
    policy: &'a assembly::Policy,
}

impl Setting<'_> {
    fn planes_at(&self, node: u32) -> Vec<&PlaneFrame> {
        find_joint(self.joints, node)
            .map(|j| self.joints[j].planes.iter().map(|&p| &self.supports[p]).collect())
            .unwrap_or_default()
    }

    /// The direction of an axis, and how long its outermost fixed span is.
    fn direction(&self, reference: DVec3, raw: DVec3, short: bool) -> DVec3 {
        let up = vector(&self.source.policy.up).normalize();
        let angle = number(self.source.policy.angle);
        let limits = AngleLimits { cosine: scalar(angle.cos()), sine: scalar(angle.sin()) };
        let cosine = reference.normalize().dot(up).abs();
        if short {
            reference.normalize()
        } else {
            match lean(&scalar(cosine), &limits) {
                Direction::Vertical => up * reference.dot(up).signum(),
                Direction::Horizontal => (raw - up * raw.dot(up)).normalize_or_zero(),
                Direction::Inclined => raw.normalize(),
            }
        }
    }

    fn measure(&self, axis: &frame::Axis, order: &[usize], nodes: &Vec<u32>) -> (AxisMeasure, [DVec3; 2]) {
        let precision = number(self.policy.precision);
        let ids = &self.source.node_ids;
        let ends = axis.endpoints.map(|i| ids[i]);
        let source_ends = ends.map(|n| place(self.mesh, n).unwrap_or(DVec3::NAN));
        let reference = source_ends[1] - source_ends[0];
        let candidate = |i: usize| vector(&self.source.candidate_points[i]);
        let (ca, cb) = (candidate(axis.endpoints[0]), candidate(axis.endpoints[1]));
        let short = reference.length() < number(self.source.policy.minimum_length);
        let fixed: Vec<(usize, DVec3)> =
            nodes.iter().enumerate().filter_map(|(k, n)| self.locked.get(n).map(|&p| (k, p))).collect();
        let raw = if fixed.len() >= 2 { fixed[fixed.len() - 1].1 - fixed[0].1 } else { cb - ca };
        let direction = self.direction(reference, raw, short);
        let direction_kept = !(direction.length_squared() < 0.5
            || direction.dot(reference.normalize()) < number(self.source.policy.angle).cos());
        let mut origin = fixed.first().map_or((ca + cb) * 0.5, |f| f.1);
        let mut line_met = true;
        if fixed.is_empty() {
            let parallel: Vec<&PlaneFrame> = common_planes(self.joints, nodes)
                .iter()
                .map(|&i| &self.supports[i])
                .filter(|p| vector(&p.normal).dot(direction).abs() <= 1e-10)
                .collect();
            match intersection(origin, &parallel, precision) {
                Some(p) => origin = p,
                None => line_met = false,
            }
        }
        let mut anchors = Vec::new();
        for (k, &node) in nodes.iter().enumerate() {
            let anchor = &axis.anchors[order[k]];
            let here = candidate(anchor.node);
            let owned = self.planes_at(node);
            let along = if short {
                let (base, t) = fixed
                    .first()
                    .map_or(((ca + cb) * 0.5, 0.5), |&(f, p)| (p, number(axis.anchors[order[f]].t)));
                base + reference * (number(anchor.t) - t)
            } else {
                origin + direction * (here - origin).dot(direction)
            };
            let mut off_axis = 0.0;
            let q = if let Some(&p) = self.locked.get(&node) {
                off_axis = if short { along.distance(p) } else { (p - origin).cross(direction).length() };
                p
            } else if short {
                along
            } else {
                // Interior source nodes slide along the axis onto the first plane
                // that crosses it.
                let t = owned
                    .iter()
                    .map(|f| (vector(&f.normal).dot(direction), f))
                    .find(|(slope, _)| slope.abs() > 1e-10)
                    .map_or((here - origin).dot(direction), |(slope, f)| -distance(f, origin) / slope);
                origin + direction * t
            };
            anchors.push(AnchorMeasure {
                point: point(q),
                off_axis: scalar(off_axis),
                from_supports: scalars(owned.iter().map(|f| distance(f, q).abs())),
                from_source: scalar(q.distance(place(self.mesh, node).unwrap_or(DVec3::NAN))),
                allowance: scalar(movement_budget(self.mesh, self.source, anchor.node) + precision),
                from_candidate: scalar(q.distance(here)),
                parameter: scalar(0.0),
                deviation: scalar(0.0),
            });
        }
        let at = |node: u32| {
            let k = nodes.iter().rposition(|n| *n == node);
            k.map_or(DVec3::NAN, |k| vector(&anchors[k].point))
        };
        let (a, b) = (at(ends[0]), at(ends[1]));
        let d = b - a;
        let length = d.length();
        let parameters: Vec<f64> = anchors
            .iter()
            .map(|m| (vector(&m.point) - a).dot(d) / d.length_squared())
            .collect();
        for (m, t) in anchors.iter_mut().zip(&parameters) {
            m.parameter = scalar(*t);
            m.deviation = scalar((vector(&m.point) - a).cross(d / length).length());
        }
        let measure = AxisMeasure {
            reference_length: scalar(reference.length()),
            span_length: scalar(raw.length()),
            direction_kept,
            line_met,
            anchors,
            padded_length: scalar(length + precision),
            advance: scalar(d.dot(reference)),
            gaps: scalars(parameters.windows(2).map(|w| (w[1] - w[0]) * length)),
        };
        (measure, [a, b])
    }
}

/// Adds the axes of a frame to the surfaces that were built.
fn assemble_axes(
    mesh: &MeshData,
    source: &frame::Report,
    build: &mut SurfaceBuild,
    supports: &[PlaneFrame],
    representatives: &Vec<usize>,
    policy: &assembly::Policy,
) -> Result<(Model, Vec<u32>, bars::Report), &'static str> {
    let precision = number(policy.precision);
    let spare = Model::new(policy.precision, policy.minimum_edge).map_err(|_| "invalid assembly policy")?;
    let model = std::mem::replace(&mut build.model, spare);
    let known = joints(mesh, source, model.surfaces(), representatives);
    let lookup: BTreeMap<u32, usize> = source.node_ids.iter().enumerate().map(|(i, &n)| (n, i)).collect();
    let shapes: Vec<(PlaneFrame, Contours)> =
        model.surfaces().iter().map(|s| (model.planes()[s.plane], contours(s))).collect();
    let mut axes = AxisBuild::new(model, build.vertex_source_nodes.clone());
    let states: Vec<JointState> = known
        .iter()
        .map(|joint| {
            let candidate = source.candidate_points[lookup[&joint.node]];
            let planes: Vec<&PlaneFrame> = joint.planes.iter().map(|&p| &supports[p]).collect();
            let met = intersection(vector(&candidate), &planes, precision).map(point);
            joint_state(joint, axes.place_of(joint.node), met, candidate)
        })
        .collect();
    let locked =
        known.iter().zip(&states).filter_map(|(j, s)| s.lock.map(|p| (j.node, vector(&p)))).collect();
    let setting = Setting { mesh, source, supports, joints: &known, locked, policy };
    for (i, axis) in source.axes.iter().enumerate() {
        let (order, nodes) = ordered_anchors(axis, &source.node_ids);
        let (measure, [a, b]) = setting.measure(axis, &order, &nodes);
        let placements = nodes
            .iter()
            .zip(&measure.anchors)
            .map(|(&n, m)| {
                surfaces_at_node(&known, n)
                    .into_iter()
                    .map(|s| {
                        let (plane, shape) = &shapes[s];
                        let p = vector(&m.point);
                        Placement {
                            distance: scalar(distance(plane, p).abs()),
                            location: location(project(plane, p), shape, precision),
                        }
                    })
                    .collect()
            })
            .collect();
        let stretches = touched_surfaces(&nodes, &known)
            .into_iter()
            .map(|s| {
                let (plane, shape) = &shapes[s];
                Stretch {
                    start_offset: scalar(distance(plane, a).abs()),
                    end_offset: scalar(distance(plane, b).abs()),
                    intervals: intervals(project(plane, a), project(plane, b), shape, precision),
                }
            })
            .collect();
        let trial = AxisTrial { order, nodes, measure, placements, stretches };
        axes.add_axis(source, i, &trial, &known, &states, policy);
    }
    Ok(axes.conclude(&known, &states))
}

type Cdt = ConstrainedDelaunayTriangulation<Point2<f64>>;

/// Acute fans around fixed vertices are not refined below this part of the
/// area asked for, so that scaling does not change the refinement.
const MIN_REQUIRED_AREA_RATIO: f64 = 1e-3;

/// The policy of a mesh in numbers.
struct Targets {
    pub spacing: f64,
    pub area: f64,
    pub angle: f64,
    pub limit: usize,
}

fn key(a: usize, b: usize) -> Edge {
    [a.min(b), a.max(b)]
}

/// The faces on either side of each edge. Vertices without a global name get one
/// of their own.
fn links(cdt: &Cdt, names: &BTreeMap<usize, usize>, boundary: &[Edge], barriers: &[Edge]) -> Vec<FaceLink> {
    let name = |i: usize| names.get(&i).copied().unwrap_or(usize::MAX - i);
    cdt.undirected_edges()
        .map(|edge| {
            let d = edge.as_directed();
            let e = key(name(d.from().fix().index()), name(d.to().fix().index()));
            FaceLink {
                a: d.face().fix().index(),
                b: d.rev().face().fix().index(),
                toggle: boundary.binary_search(&e).is_ok(),
                barrier: barriers.binary_search(&e).is_ok(),
            }
        })
        .collect()
}

fn material_faces(cdt: &Cdt, names: &BTreeMap<usize, usize>, boundary: &[Edge]) -> Result<Vec<usize>, &'static str> {
    interior(&links(cdt, names, boundary, &[]), cdt.num_all_faces(), cdt.outer_face().fix().index())
}

fn triangle_area(p: &[Point2<f64>; 3]) -> f64 {
    ((p[1].x - p[0].x) * (p[2].y - p[0].y) - (p[1].y - p[0].y) * (p[2].x - p[0].x)).abs() * 0.5
}

/// Inserts points that control the size of faces, inside the material only.
fn seed_material(
    region: &mut Cdt,
    names: &BTreeMap<usize, usize>,
    boundary: &[Edge],
    maximum_area: f64,
    budget: usize,
) -> Result<bool, &'static str> {
    let before = region.num_vertices();
    loop {
        let inside = material_faces(region, names, boundary)?;
        let faces: Vec<_> = region
            .inner_faces()
            .filter(|f| inside.binary_search(&f.fix().index()).is_ok())
            .map(|f| f.positions())
            .collect();
        let areas = scalars(faces.iter().map(triangle_area));
        let previous = region.num_vertices();
        match seed_step(&areas, &scalar(maximum_area), previous - before, budget) {
            SeedStep::Complete => return Ok(true),
            SeedStep::Exhausted => return Ok(false),
            SeedStep::Insert(chosen) => {
                for k in chosen {
                    let p = faces[k];
                    let center = Point2::new((p[0].x + p[1].x + p[2].x) / 3., (p[0].y + p[1].y + p[2].y) / 3.);
                    region.insert(center).map_err(|_| "invalid material seed")?;
                }
            }
        }
        if previous == region.num_vertices() {
            return Ok(false);
        }
    }
}

fn least_angle(p: &[Point2<f64>; 3]) -> f64 {
    (0..3)
        .map(|i| {
            let (o, a, b) = (p[i], p[(i + 1) % 3], p[(i + 2) % 3]);
            let (ax, ay, bx, by) = (a.x - o.x, a.y - o.y, b.x - o.x, b.y - o.y);
            ((ax * bx + ay * by) / (ax.hypot(ay) * bx.hypot(by))).clamp(-1., 1.).acos().to_degrees()
        })
        .fold(180., f64::min)
}

/// Revisits material faces with too small an angle. Fixed edges are protected
/// against encroachment.
fn refine_angles(
    region: &mut Cdt,
    names: &BTreeMap<usize, usize>,
    boundary: &[Edge],
    targets: &Targets,
    budget: usize,
) -> Result<bool, &'static str> {
    let before = region.num_vertices();
    loop {
        let inside = material_faces(region, names, boundary)?;
        let holds = |f: usize| inside.binary_search(&f).is_ok();
        let fixed: Vec<_> = region
            .undirected_edges()
            .filter(|e| e.is_constraint_edge() || e.is_part_of_convex_hull())
            .map(|e| e.positions())
            .collect();
        let mut candidates = Vec::new();
        for face in region.inner_faces().filter(|f| holds(f.fix().index())) {
            let p = face.positions();
            let angle = least_angle(&p);
            if triangle_area(&p) < targets.area * MIN_REQUIRED_AREA_RATIO || angle + 1e-7 >= targets.angle {
                continue;
            }
            let c = face.circumcenter();
            if !c.x.is_finite() || !c.y.is_finite() {
                continue;
            }
            let within = match region.locate(c) {
                PositionInTriangulation::OnFace(f) => holds(f.index()),
                PositionInTriangulation::OnEdge(e) => {
                    let e = region.directed_edge(e);
                    !e.is_constraint_edge() && holds(e.face().fix().index()) && holds(e.rev().face().fix().index())
                }
                _ => false,
            };
            let encroaches = |[a, b]: &[Point2<f64>; 2]| (c.x - a.x) * (c.x - b.x) + (c.y - a.y) * (c.y - b.y) <= 0.;
            if within && !fixed.iter().any(encroaches) {
                candidates.push((angle, c));
            }
        }
        let previous = region.num_vertices();
        let angles = scalars(candidates.iter().map(|c| c.0));
        match angle_step(&angles, previous - before, budget) {
            AngleStep::Complete => return Ok(true),
            AngleStep::Exhausted => return Ok(false),
            AngleStep::Insert(k) => {
                let p = candidates[k].1;
                if !matches!(region.locate(p), PositionInTriangulation::OnVertex(_)) {
                    region.insert(p).map_err(|_| "invalid material angle vertex")?;
                }
            }
        }
        if previous == region.num_vertices() {
            return Ok(true);
        }
    }
}

/// Names the vertices that have none and takes them into the mesh.
fn name_vertices(cdt: &Cdt, names: &mut BTreeMap<usize, usize>, plane: &PlaneFrame, vertices: &mut Vec<DVec3>) {
    for vertex in cdt.vertices() {
        names.entry(vertex.fix().index()).or_insert_with(|| {
            let p = vertex.position();
            vertices.push(lift(plane, [p.x, p.y]));
            vertices.len() - 1
        });
    }
}

fn faces_of(cdt: &Cdt, names: &BTreeMap<usize, usize>) -> BTreeMap<usize, [usize; 3]> {
    cdt.inner_faces().map(|f| (f.fix().index(), f.vertices().map(|v| names[&v.fix().index()]))).collect()
}

/// Refines the material of a surface. Size control comes first, so that no
/// region uses the budget up with its angles.
fn refine(
    mut cdt: Cdt,
    mut names: BTreeMap<usize, usize>,
    sets: &SurfaceConstraints,
    plane: &PlaneFrame,
    vertices: &mut Vec<DVec3>,
    targets: &Targets,
) -> Result<(Vec<[usize; 3]>, bool), &'static str> {
    let initial = cdt.num_vertices();
    let mut complete = seed_material(&mut cdt, &names, &sets.boundary, targets.area * 0.8, targets.limit)?;
    let mut added = cdt.num_vertices() - initial;
    name_vertices(&cdt, &mut names, plane, vertices);
    let all = links(&cdt, &names, &sets.boundary, &sets.barriers);
    let inside = interior(&all, cdt.num_all_faces(), cdt.outer_face().fix().index())?;
    let faces = faces_of(&cdt, &names);
    let uv: BTreeMap<usize, Point2<f64>> = cdt.vertices().map(|v| (names[&v.fix().index()], v.position())).collect();
    let mut result = Vec::new();
    for members in material_regions(&all, cdt.num_all_faces(), &inside) {
        let table = count_sides(&members.iter().map(|f| faces[f]).collect());
        let outer = region_boundary(&table);
        let mut region = Cdt::new();
        let mut handles = BTreeMap::new();
        let mut own = BTreeMap::new();
        let mut nodes: Vec<usize> = table.edges.iter().flatten().copied().collect();
        nodes.sort_unstable();
        nodes.dedup();
        for n in nodes {
            let h = region.insert(uv[&n]).map_err(|_| "invalid region vertex")?;
            handles.insert(n, h);
            own.insert(h.index(), n);
        }
        for [a, b] in region_constraints(&table, &outer, &sets.constraints) {
            if !region.can_add_constraint(handles[&a], handles[&b]) {
                return Err("invalid region constraint");
            }
            region.add_constraint(handles[&a], handles[&b]);
        }
        let before = region.num_vertices();
        let parameters = RefinementParameters::new()
            .keep_constraint_edges()
            .exclude_outer_faces(true)
            .with_min_required_area(targets.area * MIN_REQUIRED_AREA_RATIO)
            .with_max_allowed_area(targets.area)
            .with_angle_limit(AngleLimit::from_deg(targets.angle))
            .with_max_additional_vertices(vertices_left(targets.limit, added));
        let refined = region.refine(parameters);
        let budget = vertices_left(targets.limit, added + region.num_vertices() - before);
        complete &= refine_angles(&mut region, &own, &outer, targets, budget)? && refined.refinement_complete;
        added += region.num_vertices() - before;
        name_vertices(&region, &mut own, plane, vertices);
        let kept = material_faces(&region, &own, &outer)?;
        let faces = faces_of(&region, &own);
        result.extend(kept.iter().map(|f| faces[f]));
    }
    Ok((result, complete))
}

/// The edges of surfaces and their junctions.
struct Edges<'a> {
    pub all: &'a Vec<Edge>,
    pub junctions: &'a Vec<Vec<usize>>,
}

/// The chains of axes and edges with what was synchronized.
struct Synchronized {
    pub axes: Vec<Vec<ChainNode>>,
    pub edges: Vec<Vec<ChainNode>>,
    pub report: constraints::Report,
}

/// The parameter of a point on a segment, if it lies there.
fn parameter(p: DVec3, a: DVec3, b: DVec3, eps: f64) -> Option<f64> {
    let d = b - a;
    if d.length_squared() == 0. {
        return None;
    }
    let t = (p - a).dot(d) / d.length_squared();
    (t >= 0. && t <= 1. && p.distance(a + d * t) <= eps).then_some(t)
}

fn sorted(chain: &Vec<ChainNode>, vertices: &[DVec3], eps: f64) -> Result<Vec<ChainNode>, &'static str> {
    let chain = order_chain(chain);
    let gaps = scalars(chain.windows(2).map(|w| vertices[w[0].vertex].distance(vertices[w[1].vertex])));
    check_distinct(&gaps, &scalar(eps))?;
    Ok(chain)
}

/// Splits the links of a chain that are longer than the spacing.
fn split(
    chain: &Vec<ChainNode>,
    vertices: &mut Vec<DVec3>,
    spacing: f64,
    limit: usize,
    eps: f64,
) -> Result<Vec<ChainNode>, &'static str> {
    let mut pieces = Vec::new();
    let mut inserted = Vec::new();
    let mut places = Vec::new();
    for w in chain.windows(2) {
        let (pa, pb) = (vertices[w[0].vertex], vertices[w[1].vertex]);
        let (ta, tb) = (number(w[0].t), number(w[1].t));
        let count = ((pa.distance(pb) - eps) / spacing).ceil().max(1.);
        let count = if count.is_finite() && count < usize::MAX as f64 { Some(count as usize) } else { None };
        let steps = count.filter(|&c| c <= limit).unwrap_or(1);
        let parts: Vec<f64> = (1..steps).map(|i| i as f64 / steps as f64).collect();
        places.extend(parts.iter().map(|&u| pa.lerp(pb, u)));
        inserted.push(scalars(parts.iter().map(|u| ta + (tb - ta) * u)));
        pieces.push(count);
    }
    let result = subdivide(chain, &pieces, &inserted, vertices.len(), limit)?;
    vertices.extend(places);
    Ok(result)
}

/// Makes sure that every endpoint of a contact stands once on its axis and that
/// the edges of surfaces run through the same vertices.
fn synchronize(
    surfaces: &Vec<Surface>,
    edges: &Edges,
    axes: &[Axis],
    contacts: &Vec<Contact>,
    vertices: &mut Vec<DVec3>,
    targets: &Targets,
    eps: f64,
) -> Result<Synchronized, &'static str> {
    let mut chains = Vec::new();
    let mut ends = Vec::new();
    for axis in axes {
        let [a, b] = axis.endpoints.map(|n| vertices.get(n).copied().unwrap_or(DVec3::NAN));
        check_axis(&axis.endpoints, vertices.len(), &scalar(a.distance(b)))?;
        let anchors = axis.anchors.iter().map(|n| ChainNode { t: n.t, vertex: n.vertex }).collect();
        let chain = sorted(&anchors, vertices, eps)?;
        if chain.len() < 2 {
            return Err("empty axis constraint");
        }
        ends.push((a, b, eps / a.distance(b)));
        chains.push(chain);
    }
    let band = |axis: usize| {
        let tolerance = ends.get(axis).map_or(0., |e| e.2);
        AxisBand { low: scalar(-tolerance), high: scalar(1. + tolerance), tolerance: scalar(tolerance) }
    };
    let measure = |chain: &[ChainNode], axis: usize, t: f64, at: Option<DVec3>, count: usize| {
        let (a, b, tolerance) = ends[axis];
        NodeMeasure {
            vertices: count,
            off_axis: scalar(at.map_or(f64::NAN, |p| p.distance(a + (b - a) * t))),
            gaps: scalars(chain.iter().map(|n| (number(n.t) - t).abs())),
            tolerance: scalar(tolerance),
            precision: scalar(eps),
        }
    };
    let mut state = Synchronizer { chains, bindings: Vec::new(), interval_contacts: 0 };
    for (contact, item) in contacts.iter().enumerate() {
        match item {
            Contact::Point { axis, surface, vertex, t, .. } => {
                let t = point_parameter(*surface, *axis, t, surfaces.len(), axes.len(), &band(*axis))?;
                let at = vertices.get(*vertex).copied();
                let found = measure(&state.chains[*axis], *axis, number(t), at, vertices.len());
                insert_axis_node(&mut state.chains[*axis], t, *vertex, &found)?;
            }
            Contact::Interval { axis, surface, start_t, end_t, .. } => {
                let extent = number(*end_t).clamp(0., 1.) - number(*start_t).clamp(0., 1.);
                let (start, end) = interval_parameters(
                    *surface,
                    *axis,
                    start_t,
                    end_t,
                    &scalar(extent),
                    surfaces.len(),
                    axes.len(),
                    &band(*axis),
                )?;
                state.count_interval();
                for (role, t) in [(EndpointRole::Start, start), (EndpointRole::End, end)] {
                    let (a, b, tolerance) = ends[*axis];
                    let chain = &state.chains[*axis];
                    let near = chain.iter().find(|n| (number(n.t) - number(t)).abs() <= tolerance);
                    let at = near.map_or(a.lerp(b, number(t)), |n| vertices[n.vertex]);
                    let found = measure(chain, *axis, number(t), Some(at), vertices.len());
                    if state.bind_endpoint(*axis, *surface, contact, role, t, &found)?.generated {
                        vertices.push(at);
                    }
                }
            }
        }
    }
    for chain in &mut state.chains {
        let ordered = sorted(chain, vertices, eps)?;
        *chain = split(&ordered, vertices, targets.spacing, targets.limit, eps)?;
    }
    let owners = edge_owners(surfaces, edges.junctions, edges.all.len())?;
    let mut edge_chains = Vec::new();
    for (&[a, b], own) in edges.all.iter().zip(&owners) {
        if a.max(b) >= vertices.len() {
            return Err("invalid model edge vertex");
        }
        let mut chain = vec![ChainNode { t: scalar(0.), vertex: a }, ChainNode { t: scalar(1.), vertex: b }];
        for vertex in edge_candidates(own, contacts, &state.chains) {
            if let Some(t) = parameter(vertices[vertex], vertices[a], vertices[b], eps) {
                chain.push(ChainNode { t: scalar(t), vertex });
            }
        }
        let ordered = sorted(&chain, vertices, eps)?;
        edge_chains.push(split(&ordered, vertices, targets.spacing, targets.limit, eps)?);
    }
    // A vertex on a common boundary also splits the bars that lie there.
    for item in contacts {
        let Contact::Interval { axis, surface, start_t, end_t, .. } = item else {
            continue;
        };
        let (a, b, tolerance) = ends[*axis];
        for edge in surface_edges(&surfaces[*surface], &edges.junctions[*surface]) {
            for node in &edge_chains[edge] {
                let Some(t) = parameter(vertices[node.vertex], a, b, eps) else {
                    continue;
                };
                if t >= number(*start_t) - tolerance && t <= number(*end_t) + tolerance {
                    let at = Some(vertices[node.vertex]);
                    let found = measure(&state.chains[*axis], *axis, t, at, vertices.len());
                    insert_axis_node(&mut state.chains[*axis], scalar(t), node.vertex, &found)?;
                }
            }
        }
    }
    for chain in &mut state.chains {
        *chain = sorted(chain, vertices, eps)?;
    }
    let (axes, report) = summarize(state, &owners, &edge_chains);
    Ok(Synchronized { axes, edges: edge_chains, report })
}

/// A chart of a surface along its longest edge, with coordinates rounded to the
/// precision.
fn chart(surface: &Surface, edges: &[Edge], vertices: &[DVec3], normal: DVec3) -> Option<PlaneFrame> {
    let [a, b] = surface
        .boundaries
        .iter()
        .flatten()
        .map(|e| edges[e.edge])
        .max_by(|x, y| {
            let length = |e: &Edge| vertices[e[0]].distance(vertices[e[1]]);
            length(x).total_cmp(&length(y))
        })?;
    let direction = vertices[b] - vertices[a];
    let u = (direction - normal * normal.dot(direction)).normalize();
    Some(PlaneFrame { origin: point(vertices[a]), normal: point(normal), u: point(u), v: point(normal.cross(u)) })
}

fn ring_polygon(ring: &[[f64; 2]]) -> LineString<f64> {
    LineString::from(ring.iter().chain(ring.first()).map(|p| (p[0], p[1])).collect::<Vec<_>>())
}

fn hole_size(ring: &[[f64; 2]], eps: f64, minimum: f64) -> (f64, f64) {
    let doubled: f64 = (0..ring.len())
        .map(|i| {
            let (a, b) = (ring[i], ring[(i + 1) % ring.len()]);
            a[0] * b[1] - b[0] * a[1]
        })
        .sum();
    let extent = ring
        .iter()
        .flat_map(|a| ring.iter().map(move |b| (a[0] - b[0]).hypot(a[1] - b[1])))
        .fold(0., f64::max);
    (0.5 * doubled.abs(), eps * extent.max(minimum))
}

fn triangulate(
    surface: usize,
    sets: &SurfaceConstraints,
    vertices: &[DVec3],
    plane: &PlaneFrame,
    place: impl Fn(DVec3) -> [f64; 2],
    eps: f64,
) -> Result<(Cdt, BTreeMap<usize, usize>), &'static str> {
    let mut cdt = Cdt::new();
    let mut handles = BTreeMap::new();
    let mut names = BTreeMap::new();
    for &n in &sets.nodes {
        if distance(plane, vertices[n]).abs() > eps {
            return Err("nonplanar mesh constraint");
        }
        let uv = place(vertices[n]);
        let h = cdt.insert(Point2::new(uv[0], uv[1])).map_err(|_| "invalid CDT vertex")?;
        if let Some(previous) = names.insert(h.index(), n) {
            println!(
                "implicit CDT merge: surface={surface} previous={previous} current={n} \
                 previous_xyz={:?} current_xyz={:?} distance={:.12e} projected={:?}",
                vertices[previous].to_array(),
                vertices[n].to_array(),
                vertices[previous].distance(vertices[n]),
                uv,
            );
            return Err("implicit vertex merge in CDT");
        }
        handles.insert(n, h);
    }
    for &[a, b] in &sets.constraints {
        if !cdt.can_add_constraint(handles[&a], handles[&b]) {
            return Err("constraint crossing requires explicit shared vertex");
        }
        cdt.add_constraint(handles[&a], handles[&b]);
    }
    Ok((cdt, names))
}

fn measure_face(p: [DVec3; 3], normal: DVec3, eps: f64) -> FaceMeasure {
    let across = (p[1] - p[0]).cross(p[2] - p[0]);
    let lengths = [p[0].distance(p[1]), p[1].distance(p[2]), p[2].distance(p[0])];
    let shortest = lengths.iter().copied().fold(f64::INFINITY, f64::min);
    let longest = lengths.iter().copied().fold(0., f64::max);
    let angles: [f64; 3] = std::array::from_fn(|i| {
        let (j, k) = ((i + 1) % 3, (i + 2) % 3);
        if lengths[j] > eps && lengths[k] > eps {
            (p[j] - p[i]).normalize().dot((p[k] - p[i]).normalize()).clamp(-1., 1.).acos().to_degrees()
        } else {
            0.
        }
    });
    let ratio = if shortest.is_finite() && shortest > eps { longest / shortest } else { f64::INFINITY };
    FaceMeasure {
        area: scalar(across.length() / 2.),
        facing: scalar(across.dot(normal)),
        shortest: scalar(shortest),
        ratio: scalar(ratio),
        angles: angles.map(scalar),
        padded_angle: scalar(angles.iter().copied().fold(180., f64::min) + 1e-7),
    }
}

/// Builds a trial mesh. With `allow_unresolved` what cannot be meshed is reported
/// instead of refused.
fn build(
    source: &assembly::Report,
    edges: &Edges,
    policy: &mesh::Policy,
    allow_unresolved: bool,
) -> Result<mesh::Report, &'static str> {
    let mut build = MeshBuild::start(source, policy, allow_unresolved)?;
    let targets = Targets {
        spacing: number(policy.boundary_spacing),
        area: number(policy.maximum_area),
        angle: number(policy.minimum_angle_degrees),
        limit: policy.maximum_added_vertices_per_surface,
    };
    let model = &source.preview;
    let eps = number(source.policy.precision);
    let axes = &source.axis_assembly.axes;
    let contacts = &source.axis_assembly.contacts;
    let mut vertices: Vec<DVec3> = model.vertices().iter().map(vector).collect();
    let synchronized = synchronize(model.surfaces(), edges, axes, contacts, &mut vertices, &targets, eps)?;
    let mut axis_chains = synchronized.axes;
    for (s, surface) in model.surfaces().iter().enumerate() {
        let support = &model.planes()[surface.plane];
        let normal = vector(&support.normal);
        let plane = chart(surface, model.edges(), &vertices, normal).ok_or("empty surface")?;
        let place = |p: DVec3| project(&plane, p).map(|x| (x / eps).round() * eps);
        let contours: Vec<Vec<[f64; 2]>> = surface
            .contours
            .iter()
            .map(|r| r.iter().map(|uv| place(lift(support, uv.map(number)))).collect())
            .collect();
        let polygon = Polygon::new(ring_polygon(&contours[0]), contours[1..].iter().map(|r| ring_polygon(r)).collect());
        let minimum = number(source.policy.minimum_edge);
        let holes: Vec<(f64, f64)> = contours[1..].iter().map(|r| hole_size(r, eps, minimum)).collect();
        let sizes = holes.iter().map(|h| HoleSize { area: scalar(h.0), resolution: scalar(h.1) }).collect();
        if let Some(k) = find_unresolved_hole(&sizes) {
            let (area, threshold) = holes[k];
            let reason =
                format!("hole_area_below_mesh_resolution: ring={}, area={area:e}, threshold={threshold:e}", k + 1);
            build.refuse_surface(s, &surface.source_elements, "hole below mesh numerical resolution", reason)?;
            continue;
        }
        let spans: Vec<Option<(usize, f64, f64, f64)>> = contacts
            .iter()
            .map(|c| match c {
                Contact::Interval { axis, surface, start_t, end_t, .. } if *surface == s => {
                    let [a, b] = axes[*axis].endpoints.map(|n| vertices[n]);
                    Some((*axis, number(*start_t), number(*end_t), eps / a.distance(b)))
                }
                _ => None,
            })
            .collect();
        let measures = spans
            .iter()
            .map(|span| {
                let (chain, start, end, tolerance) =
                    span.map_or((&[][..], 0., 0., 0.), |(axis, a, b, t)| (&axis_chains[axis][..], a, b, t));
                IntervalMeasure {
                    tolerance: scalar(tolerance),
                    start_gaps: scalars(chain.iter().map(|n| (start - number(n.t)).abs())),
                    end_gaps: scalars(chain.iter().map(|n| (end - number(n.t)).abs())),
                    low: scalar(start - tolerance),
                    high: scalar(end + tolerance),
                }
            })
            .collect();
        let sets = surface_constraints(
            surface,
            &edges.junctions[s],
            edges.all,
            &closed_vertices(source, surface)?,
            &synchronized.edges,
            contacts,
            s,
            &axis_chains,
            &measures,
        )?;
        let (cdt, names) = triangulate(s, &sets, &vertices, &plane, place, eps)?;
        let (faces, complete) = match refine(cdt, names, &sets, &plane, &mut vertices, &targets) {
            Ok(found) => found,
            Err(error) => {
                build.refuse_surface(s, &surface.source_elements, error, error.into())?;
                continue;
            }
        };
        if !complete {
            build.note_limit(s);
        }
        let used: BTreeSet<usize> = faces.iter().flatten().copied().collect();
        let mut registry = Registry::new();
        for (axis, start, end, tolerance) in spans.into_iter().flatten() {
            let [a, b] = axes[axis].endpoints.map(|n| vertices[n]);
            for &node in &used {
                let Some(t) = parameter(vertices[node], a, b, eps) else {
                    continue;
                };
                let found = AxisPlace {
                    t: scalar(t),
                    low: scalar(start - tolerance),
                    high: scalar(end + tolerance),
                    gaps: scalars(axis_chains[axis].iter().map(|n| (t - number(n.t)).abs())),
                    tolerance: scalar(tolerance),
                };
                promote_vertex(&mut axis_chains[axis], &mut registry, node, &found);
            }
        }
        let faces = rename_faces(&faces, &registry);
        for chain in &mut axis_chains {
            *chain = sorted(chain, &vertices, eps)?;
        }
        let limits = FaceLimits {
            precision: scalar(eps),
            degenerate_area: scalar(eps * eps),
            minimum_angle: policy.minimum_angle_degrees,
            maximum_area: scalar(targets.area * (1. + 1e-7)),
        };
        let mut area = 0.;
        for &face in &faces {
            let measure = measure_face(face.map(|n| vertices[n]), normal, eps);
            area += number(measure.area);
            build.add_face(
                s,
                &surface.source_elements,
                source.surface_stiffness[s],
                face,
                &measure,
                &limits,
                &sets.constraints,
                &source.vertex_source_nodes,
            );
        }
        let whole = polygon.unsigned_area();
        let (deviation, allowance) = ((area - whole).abs(), eps * whole.sqrt().max(eps) * 10.);
        build.check_surface(
            s,
            &faces,
            &sets.constraints,
            &sets.boundary,
            &sets.nodes,
            &scalar(deviation),
            &scalar(allowance),
        );
    }
    let mut bars = Vec::new();
    for (axis, chain) in axis_chains.iter().enumerate() {
        let spans = &axes[axis].spans;
        let middles = scalars(chain.windows(2).map(|w| (number(w[0].t) + number(w[1].t)) / 2.));
        let bands = spans
            .iter()
            .map(|s| SpanBand { low: scalar(number(s.start_t) - 1e-10), high: scalar(number(s.end_t) + 1e-10) })
            .collect();
        bars.extend(axis_bars(axis, chain, &middles, spans, &bands)?);
    }
    let bounds = QualityBounds {
        padded_angle: scalar(number(build.minimum_angle) + 1e-7),
        maximum_area: scalar(targets.area * (1. + 1e-7)),
    };
    let places = vertices.into_iter().map(point).collect();
    Ok(mesh::conclude(build, policy, &bounds, places, bars, model.surfaces(), synchronized.report))
}

/// The geometry of a package for an external mesher.
fn package_geometry(source: &assembly::Report) -> Geometry {
    let model = &source.preview;
    let axes: Vec<[DVec3; 2]> =
        source.axis_assembly.axes.iter().map(|a| a.endpoints.map(|n| vector(&model.vertices()[n]))).collect();
    let rings = |s: &Surface| {
        let plane = &model.planes()[s.plane];
        s.contours.iter().map(|r| r.iter().map(|uv| point(lift(plane, uv.map(number)))).collect()).collect()
    };
    let at = |c: &Contact| match c {
        Contact::Point { axis, t, .. } => [point(axes[*axis][0].lerp(axes[*axis][1], number(*t))); 2],
        Contact::Interval { axis, start_t, end_t, .. } => {
            [start_t, end_t].map(|t| point(axes[*axis][0].lerp(axes[*axis][1], number(*t))))
        }
    };
    Geometry {
        rings: model.surfaces().iter().map(rings).collect(),
        lengths: scalars(axes.iter().map(|[a, b]| a.distance(*b))),
        contacts: source.axis_assembly.contacts.iter().map(at).collect(),
    }
}

fn element(id: u32, elem_type: u32, stiff_id: u32, nodes: Vec<u32>) -> ElementData {
    ElementData { id, elem_type, stiff_id, nodes }
}

/// A slab with an opening and two properties, two walls, a beam with a property
/// change, and a column at an interior beam node.
fn fragment() -> MeshData {
    let mut faces: Vec<(Vec<[i32; 3]>, u32, u32)> = Vec::new();
    for x in 0..6 {
        for y in 0..4 {
            if (x, y) != (4, 2) {
                let corners = vec![[x, y, 0], [x + 1, y, 0], [x + 1, y + 1, 0], [x, y + 1, 0]];
                faces.push((corners, 44, if x < 3 { 10 } else { 20 }));
            }
        }
    }
    for x in 0..6 {
        for z in 0..2 {
            faces.push((vec![[x, 0, z], [x + 1, 0, z], [x + 1, 0, z + 1], [x, 0, z + 1]], 44, 30));
        }
    }
    for y in 0..4 {
        for z in 0..2 {
            faces.push((vec![[0, y, z], [0, y + 1, z], [0, y + 1, z + 1], [0, y, z + 1]], 44, 40));
        }
    }
    for x in 0..6 {
        faces.push((vec![[x, 1, 0], [x + 1, 1, 0]], 10, if x < 3 { 50 } else { 60 }));
    }
    for z in -2..0 {
        faces.push((vec![[2, 1, z], [2, 1, z + 1]], 10, 70));
    }
    let mut mesh = MeshData::default();
    let mut nodes: BTreeMap<[i32; 3], u32> = BTreeMap::new();
    for (i, (corners, kind, stiffness)) in faces.into_iter().enumerate() {
        let mut ids = Vec::new();
        for p in corners {
            let next = nodes.len() as u32 + 1;
            let id = *nodes.entry(p).or_insert(next);
            mesh.nodes.insert(id, point(DVec3::new(p[0] as f64, p[1] as f64, p[2] as f64)));
            ids.push(id);
        }
        mesh.elements.push(element(i as u32 + 1, kind, stiffness, ids));
    }
    mesh
}

fn source(mesh: &MeshData, id: u32) -> DVec3 {
    vector(&mesh.nodes.get(id).unwrap())
}

fn moved(mesh: &MeshData, node: impl Fn(u32) -> u32, map: impl Fn(DVec3) -> DVec3) -> MeshData {
    let mut result = MeshData::default();
    for n in mesh.nodes.ids() {
        result.nodes.insert(node(n), point(map(source(mesh, n))));
    }
    for e in &mesh.elements {
        let nodes = e.nodes.iter().map(|&n| node(n)).collect();
        result.elements.push(element(e.id, e.elem_type, e.stiff_id, nodes));
    }
    result
}

/// Cuts axes where other constructions meet them, whatever their elements and
/// properties.
fn segmented(mesh: &MeshData, found: recognize::Report, supports: &planes::Report) -> recognize::Report {
    let owners = NodeOwners::of(&found.axes, &supports.patches);
    let mut parts = Vec::new();
    for (k, axis) in found.axes.iter().enumerate() {
        let [a, b] = axis.endpoint_nodes.map(|n| source(mesh, n));
        let direction = (b - a).normalize();
        let limit = number(found.policy.angle).sin();
        let transverse =
            supports.patches.iter().map(|p| vector(&p.plane.normal).dot(direction).abs() > limit).collect();
        let (order, cuts) = split_axis(&owners, &found.axes, &supports.patches, k, &transverse);
        for w in cuts.windows(2) {
            let anchors: Vec<_> = order[w[0]..=w[1]].iter().map(|&i| &axis.anchors[i]).collect();
            let ends = [anchors[0], anchors[anchors.len() - 1]];
            let [low, high] = ends.map(|e| number(e.t));
            let inside = |t: Scalar| scalar((number(t) - low) / (high - low));
            parts.push(RecognizedAxis {
                endpoint_nodes: ends.map(|e| e.node),
                endpoints: ends.map(|e| point(source(mesh, e.node))),
                anchors: anchors
                    .into_iter()
                    .map(|e| SourceAnchor {
                        node: e.node,
                        t: inside(e.t),
                        distance_to_axis: e.distance_to_axis,
                        incident_elements: e.incident_elements.clone(),
                    })
                    .collect(),
                spans: select_spans(&axis.spans, &ends[0].t, &ends[1].t)
                    .into_iter()
                    .map(|s| SourceSpan { start_t: inside(s.start_t), end_t: inside(s.end_t), ..s })
                    .collect(),
            });
        }
    }
    recognize::Report { axes: parts, ..found }
}

fn stages(input: &MeshData, scale: f64, rotated: bool) -> (MeshData, frame::Report, assembly::Report) {
    let (rotation, shift) = if rotated {
        (DQuat::from_axis_angle(DVec3::new(1., 2., 3.).normalize(), 0.6), DVec3::new(10., 20., 30.))
    } else {
        (DQuat::IDENTITY, DVec3::ZERO)
    };
    let name = |n: u32| if rotated { 1000 - n } else { n };
    let mut input = moved(input, name, |p| rotation * (p * scale) + shift);
    if rotated {
        input.elements.reverse();
    }
    let a = axes(
        &input,
        &recognize::Policy {
            angle: scalar(0.02),
            line_tolerance: scalar(0.001 * scale),
            numerical_precision: scalar(1e-8 * scale),
        },
    )
    .unwrap();
    let p = patches(
        &input,
        &planes::Policy {
            angle: scalar(0.02),
            distance: scalar(0.001 * scale),
            precision: scalar(1e-8 * scale),
        },
    )
    .unwrap();
    let a = segmented(&input, a, &p);
    let f = solve(
        &input,
        &a,
        &p,
        &frame::Policy {
            up: point(rotation * DVec3::Z),
            angle: scalar(0.02),
            maximum_movement: scalar(0.05 * scale),
            relative_movement: scalar(0.05),
            minimum_length: scalar(0.01 * scale),
            residual_tolerance: scalar(1e-8 * scale),
            iterations: 1000,
        },
    )
    .unwrap();
    let topology = assemble(
        &input,
        &f,
        &assembly::Policy {
            closure_tolerance: scalar(0.001 * scale),
            junction_movement_limit: scalar(0.05 * scale),
            precision: scalar(1e-7 * scale),
            minimum_edge: scalar(0.001 * scale),
        },
    )
    .unwrap();
    (input, f, topology)
}

fn topology_of(input: &MeshData, scale: f64, rotated: bool) -> assembly::Report {
    stages(input, scale, rotated).2
}

fn mesh_policy(spacing: f64, area: f64, limit: usize) -> mesh::Policy {
    mesh::Policy {
        boundary_spacing: scalar(spacing),
        maximum_area: scalar(area),
        minimum_angle_degrees: scalar(20.),
        maximum_added_vertices_per_surface: limit,
    }
}

/// A mesh of surfaces without junctions.
fn plain(topology: &assembly::Report, policy: &mesh::Policy, partial: bool) -> Result<mesh::Report, &'static str> {
    let junctions = vec![Vec::new(); topology.preview.surfaces().len()];
    build(topology, &Edges { all: topology.preview.edges(), junctions: &junctions }, policy, partial)
}

fn run_input(input: &MeshData, scale: f64, rotated: bool) -> (assembly::Report, mesh::Report) {
    let t = topology_of(input, scale, rotated);
    let m = plain(&t, &mesh_policy(0.5 * scale, 0.5 * scale * scale, 10000), false).unwrap();
    (t, m)
}

fn run(scale: f64, rotated: bool) -> (assembly::Report, mesh::Report) {
    run_input(&fragment(), scale, rotated)
}

#[test]
fn fe_to_mesh_preserves_opening_properties_and_shared_joints() {
    for scale in [0.1, 1., 10.] {
        for rotated in [false, true] {
            let (topology, mesh) = run(scale, rotated);
            assert!(
                mesh.topology_valid && mesh.quality_passed,
                "scale={scale} rotated={rotated}: {:?}, angle {}",
                mesh.blockers,
                number(mesh.minimum_angle_degrees)
            );
            let ratio = number(mesh.maximum_edge_ratio);
            assert!(ratio.is_finite() && ratio >= 1.0);
            assert_eq!(topology.preview.surfaces().len(), 4);
            assert_eq!(topology.axis_assembly.axes.len(), 3);
            let interval_contacts = topology
                .axis_assembly
                .contacts
                .iter()
                .filter(|contact| matches!(contact, Contact::Interval { .. }))
                .count();
            assert!(mesh.constraint_synchronization.shared_edge_count > 0);
            assert_eq!(mesh.constraint_synchronization.interval_contact_count, interval_contacts);
            assert_eq!(mesh.constraint_synchronization.synchronized_interval_endpoints, interval_contacts * 2);
            assert_eq!(topology.preview.surfaces().iter().filter(|s| s.contours.len() == 2).count(), 1);
            assert!(mesh.external_mesher_ready, "{:?}", mesh.external_mesher_blockers);
            assert!(mesh.external_mesher_blockers.is_empty());
            assert_eq!(
                mesh.triangles.iter().map(|t| t.stiffness).collect::<BTreeSet<_>>(),
                BTreeSet::from([10, 20, 30, 40])
            );
            assert_eq!(
                mesh.bars.iter().map(|b| b.stiffness).collect::<BTreeSet<_>>(),
                BTreeSet::from([50, 60, 70])
            );
            let mut areas = BTreeMap::<u32, f64>::new();
            for t in &mesh.triangles {
                let [a, b, c] = t.vertices.map(|n| vector(&mesh.vertices[n]));
                *areas.entry(t.stiffness).or_default() += (b - a).cross(c - a).length() / 2.;
            }
            for (stiffness, expected) in [(10, 12.), (20, 11.), (30, 12.), (40, 8.)] {
                assert!((areas[&stiffness] / scale.powi(2) - expected).abs() < 1e-7);
            }
            let mut lengths = BTreeMap::<u32, f64>::new();
            for b in &mesh.bars {
                let [p, q] = b.vertices.map(|n| vector(&mesh.vertices[n]));
                *lengths.entry(b.stiffness).or_default() += p.distance(q);
            }
            for (stiffness, expected) in [(50, 3.), (60, 3.), (70, 2.)] {
                assert!((lengths[&stiffness] / scale - expected).abs() < 1e-7);
            }
            // The common node of beam and column is a triangle vertex by identity.
            let a = &topology.axis_assembly.axes;
            let common: BTreeSet<_> = a[0]
                .anchors
                .iter()
                .map(|a| a.vertex)
                .collect::<BTreeSet<_>>()
                .intersection(&a[1].anchors.iter().map(|a| a.vertex).collect())
                .copied()
                .collect();
            assert_eq!(common.len(), 1);
            let node = *common.first().unwrap();
            assert!(mesh.triangles.iter().any(|t| t.vertices.contains(&node)));
            assert!(mesh.bars.iter().any(|b| b.axis == 0 && b.vertices.contains(&node)));
            assert!(mesh.bars.iter().any(|b| b.axis == 1 && b.vertices.contains(&node)));
            assert!(!mesh.export_ready);
        }
    }
}

#[test]
fn rejects_incomplete_geometry_and_reports_quality_failure() {
    let (mut topology, _) = run(1., false);
    let m = plain(&topology, &mesh_policy(1., 0.001, 1), false).unwrap();
    assert!(!m.quality_passed);
    assert!(m.external_mesher_ready, "{:?}", m.external_mesher_blockers);
    assert!(m.external_mesher_blockers.is_empty());
    assert!(!m.quality_diagnostics.is_empty());
    assert!(m.quality_diagnostics.iter().all(|diagnostic| !diagnostic.source_elements.is_empty()));
    topology.all_surface_patches_built = false;
    assert!(plain(&topology, &mesh_policy(1., 0.5, 1), false).is_err());
}

#[test]
fn policies_and_openings_that_a_mesh_refuses() {
    let mut topology = topology_of(&fragment(), 1., false);
    assert_eq!(plain(&topology, &mesh_policy(0., 0.5, 1), false).err(), Some("invalid mesh policy"));
    assert_eq!(plain(&topology, &mesh_policy(1., 0.5, 0), false).err(), Some("invalid mesh policy"));
    let source_elements = topology.preview.surfaces()[0].source_elements.clone();
    topology.simplified_holes.push(SimplifiedHole {
        patch: 0,
        source_elements,
        source_nodes: vec![9999],
        source_area: scalar(0.),
        source_width: scalar(0.),
        candidate_area: scalar(0.),
        candidate_width: scalar(0.),
        numerical_area_threshold: scalar(0.),
        exterior_source_area: scalar(1.),
    });
    let refused = plain(&topology, &mesh_policy(1., 0.5, 100), false);
    assert_eq!(refused.err(), Some("missing simplified-hole junction"));
}

#[test]
fn whole_assembly_meshes_alike_with_and_without_gaps_allowed() {
    let (topology, strict) = run(1., false);
    let partial = plain(&topology, &mesh_policy(0.5, 0.5, 10000), true).unwrap();
    assert_eq!(format!("{strict:?}"), format!("{partial:?}"));
    assert!(partial.source_coverage_complete && partial.mesh_surface_errors.is_empty());
}

#[test]
fn partial_mesh_keeps_unresolved_source_coverage_as_a_blocker() {
    let (mut topology, _) = run(1., false);
    topology.all_surface_patches_built = false;
    topology.issues.push(assembly::Issue {
        patch: 99,
        source_elements: vec![9001],
        reason: "synthetic unresolved surface".into(),
        boundary_source_nodes: vec![],
    });
    topology.axis_assembly.all_axes_built = false;
    topology.axis_assembly.issues.push(bars::Issue {
        source_axis: 99,
        source_elements: vec![9002],
        source_nodes: vec![1],
        reason: "synthetic unresolved axis".into(),
    });
    let policy = mesh_policy(0.5, 0.5, 10000);
    assert_eq!(plain(&topology, &policy, false).unwrap_err(), "mesh probe requires a completely assembled fragment");
    let partial = plain(&topology, &policy, true).unwrap();
    assert!(!partial.source_coverage_complete);
    assert_eq!(partial.unresolved_surface_source_elements, vec![9001]);
    assert_eq!(partial.unresolved_axis_source_elements, vec![9002]);
    assert!(!partial.triangles.is_empty());
    assert!(!partial.external_mesher_ready);
    assert!(partial.external_mesher_blockers.contains(&"unresolved_surface_assembly".to_string()));
    assert!(partial.external_mesher_blockers.contains(&"unresolved_axis_assembly".to_string()));
}

fn model_of(precision: f64, minimum: f64, points: &[[f64; 3]], surfaces: Vec<Vec<Vec<usize>>>) -> Model {
    let mut model = Model::new(scalar(precision), scalar(minimum)).unwrap();
    let plane = plane_frame(DVec3::ZERO, DVec3::Z).unwrap();
    let id = model.add_plane(plane);
    for p in points {
        model.add_vertex(point(DVec3::from_array(*p))).unwrap();
    }
    for (i, rings) in surfaces.into_iter().enumerate() {
        let places: Vec<Vec<DVec3>> =
            rings.iter().map(|r| r.iter().map(|&v| DVec3::from_array(points[v])).collect()).collect();
        let measures = measure_rings(&plane, &places, precision);
        model.add_surface(id, rings, vec![i as u32 + 1], measures).unwrap();
    }
    model
}

#[test]
fn subresolution_hole_is_reported_without_silent_filling() {
    let points = [
        [0., 0., 0.],
        [10., 0., 0.],
        [10., 10., 0.],
        [0., 10., 0.],
        [4., 4., 0.],
        [4.4, 4., 0.],
        [4.2, 4.00000001, 0.],
    ];
    let mut topology = assembly::Report {
        policy: assembly::Policy {
            closure_tolerance: scalar(0.001),
            junction_movement_limit: scalar(0.05),
            precision: scalar(1e-7),
            minimum_edge: scalar(0.001),
        },
        export_ready: false,
        all_surface_patches_built: true,
        preview: model_of(1e-7, 0.001, &points, vec![vec![vec![0, 1, 2, 3], vec![4, 5, 6]]]),
        vertex_source_nodes: (1..=7).collect(),
        surface_source_patches: vec![0],
        surface_stiffness: vec![10],
        pinched_region_splits: vec![],
        hole_recovery: vec![],
        simplified_holes: vec![],
        axis_assembly: bars::Report::default(),
        issues: vec![],
        maximum_closure_movement: scalar(0.),
        rejected_vertices: vec![],
        support_representatives: vec![0],
        support_offset_projection_applied: false,
    };
    let policy = mesh_policy(0.5, 0.5, 100);
    let report = plain(&topology, &policy, true).unwrap();
    assert!(report.triangles.is_empty());
    assert_eq!(report.mesh_surface_errors.len(), 1);
    assert_eq!(report.mesh_surface_errors[0].surface, 0);
    assert!(report.mesh_surface_errors[0].reason.starts_with("hole_area_below_mesh_resolution"));
    assert_eq!(report.unresolved_surface_source_elements, vec![1]);
    assert!(!report.source_coverage_complete);
    assert!(!report.external_mesher_ready);
    topology.axis_assembly.all_axes_built = true;
    assert_eq!(plain(&topology, &policy, false).unwrap_err(), "hole below mesh numerical resolution");
}

#[test]
fn nonorthogonal_fragment_passes_quality_under_transforms() {
    let input = moved(&fragment(), |n| n, |p| DVec3::new(p.x + 0.2 * p.y, p.y, p.z));
    for scale in [0.1, 1., 10.] {
        for rotated in [false, true] {
            let (_, mesh) = run_input(&input, scale, rotated);
            assert!(
                mesh.topology_valid && mesh.quality_passed,
                "scale={scale}, rotated={rotated}, angle={}, {:?}",
                number(mesh.minimum_angle_degrees),
                mesh.blockers
            );
            assert!(mesh.blockers.is_empty());
            let ratio = number(mesh.maximum_edge_ratio);
            assert!(ratio.is_finite() && ratio >= 1.0);
            assert!(!mesh.export_ready);
        }
    }
}

#[test]
fn cantilever_keeps_topology_and_refines_around_open_constraint() {
    let mut input = fragment();
    let mut kept = Vec::new();
    for e in input.elements {
        let places: Vec<DVec3> = e.nodes.iter().map(|&n| vector(&input.nodes.get(n).unwrap())).collect();
        if e.elem_type != 10 || !places.iter().all(|p| p.z == 0.) || places.iter().all(|p| p.x <= 2.) {
            kept.push(e);
        }
    }
    input.elements = kept;
    let (topology, mesh) = run_input(&input, 1., true);
    assert!(mesh.topology_valid, "{:?}", mesh.blockers);
    assert!(mesh.quality_passed, "{:?}", mesh.blockers);
    let ratio = number(mesh.maximum_edge_ratio);
    assert!(ratio.is_finite() && ratio >= 1.0);
    assert!(!mesh.export_ready);
    assert_eq!(topology.axis_assembly.axes.len(), 2);
    assert_eq!(mesh.bars.iter().map(|b| b.stiffness).collect::<BTreeSet<_>>(), BTreeSet::from([50, 70]));
    let mut triangle_edges = BTreeMap::<[usize; 2], usize>::new();
    for triangle in &mesh.triangles {
        for i in 0..3 {
            *triangle_edges.entry(key(triangle.vertices[i], triangle.vertices[(i + 1) % 3])).or_default() += 1;
        }
    }
    // The free end is inside the slab, but the beam stays a two-sided constraint.
    for bar in mesh.bars.iter().filter(|b| b.axis == 0) {
        assert_eq!(triangle_edges.get(&key(bar.vertices[0], bar.vertices[1])), Some(&2));
    }
}

#[test]
fn subdivision_respects_numerical_precision_and_resource_limit() {
    let eps = 1e-7;
    let chain =
        vec![ChainNode { t: scalar(0.), vertex: 0 }, ChainNode { t: scalar(1.), vertex: 1 }];
    for (excess, expected) in [(eps * 0.5, 3), (eps * 2., 4)] {
        let mut vertices = vec![DVec3::ZERO, DVec3::new(1. + excess, 0., 0.)];
        let chain = split(&chain, &mut vertices, 0.5, 10, eps).unwrap();
        assert_eq!(chain.len(), expected);
        assert_eq!(vertices[1], DVec3::new(1. + excess, 0., 0.));
        assert_eq!(vertices.len(), expected);
    }
    let mut vertices = vec![DVec3::ZERO, DVec3::X];
    assert_eq!(split(&chain, &mut vertices, 0.5, 1, eps).unwrap_err(), "constraint subdivision limit");
    assert_eq!(split(&chain, &mut vertices, 0., 10, eps).unwrap_err(), "constraint subdivision limit");
}

fn shared_edge_case() -> (Model, Vec<DVec3>, Vec<Axis>, Vec<Contact>) {
    let points =
        [[0., 0., 0.], [4., 0., 0.], [4., 2., 0.], [0., 2., 0.], [4., -2., 0.], [0., -2., 0.]];
    let model = model_of(1e-8, 0.01, &points, vec![vec![vec![0, 1, 2, 3]], vec![vec![1, 0, 5, 4]]]);
    let axis = Axis {
        source_axis: 0,
        endpoints: [0, 1],
        anchors: vec![
            Anchor { source_node: 10, vertex: 0, t: scalar(0.) },
            Anchor { source_node: 11, vertex: 1, t: scalar(1.) },
        ],
        spans: vec![],
    };
    let contact = |surface: usize| Contact::Interval {
        axis: 0,
        surface,
        start_t: scalar(0.25),
        end_t: scalar(0.75),
        location: Location::Boundary,
    };
    (model, points.map(DVec3::from_array).to_vec(), vec![axis], vec![contact(0), contact(1)])
}

fn sync_targets() -> Targets {
    Targets { spacing: 10., area: 1., angle: 20., limit: 32 }
}

#[test]
fn interval_endpoints_are_created_once_and_shared_by_surfaces_and_bar() {
    let (model, mut vertices, axes, contacts) = shared_edge_case();
    let edges = Edges { all: model.edges(), junctions: &vec![vec![]; 2] };
    let synced =
        synchronize(model.surfaces(), &edges, &axes, &contacts, &mut vertices, &sync_targets(), 1e-8).unwrap();
    assert_eq!(synced.report.shared_edge_count, 1);
    assert_eq!(synced.report.interval_contact_count, 2);
    assert_eq!(synced.report.synchronized_interval_endpoints, 4);
    assert_eq!(synced.report.endpoint_bindings.len(), 4);
    assert_eq!(synced.report.endpoint_bindings.iter().filter(|binding| binding.generated).count(), 2);
    let first = &synced.report.endpoint_bindings[0..2];
    let second = &synced.report.endpoint_bindings[2..4];
    assert_eq!(first[0].vertex, second[0].vertex);
    assert_eq!(first[1].vertex, second[1].vertex);
    let names = |chain: &[ChainNode]| chain.iter().map(|n| n.vertex).collect::<Vec<_>>();
    assert_eq!(names(&synced.axes[0]), vec![0, first[0].vertex, first[1].vertex, 1]);
    assert_eq!(names(&synced.edges[0]), vec![0, first[0].vertex, first[1].vertex, 1]);
    assert_eq!(synced.report.axis_node_count, 4);
    assert_eq!(synced.report.edge_node_count, 16);
}

#[test]
fn malformed_interval_is_rejected_before_any_mesh_constraint_is_added() {
    let (model, mut vertices, axes, mut contacts) = shared_edge_case();
    contacts[0] = Contact::Interval {
        axis: 0,
        surface: 0,
        start_t: scalar(0.75),
        end_t: scalar(0.75),
        location: Location::Interior,
    };
    let edges = Edges { all: model.edges(), junctions: &vec![vec![]; 2] };
    let refused = synchronize(model.surfaces(), &edges, &axes, &contacts, &mut vertices, &sync_targets(), 1e-8);
    assert_eq!(refused.err(), Some("degenerate interval contact"));
    assert_eq!(vertices.len(), 6);
}

#[test]
fn material_seeding_fills_both_sides_of_open_beam_but_not_hole() {
    for scale in [0.1, 1., 10.] {
        let points = [
            [0., 0.],
            [10., 0.],
            [10., 10.],
            [0., 10.],
            [0., 2.],
            [4., 4.],
            [6., 4.],
            [6., 6.],
            [4., 6.],
            [3., 2.],
        ];
        let mut region = Cdt::new();
        let mut mapping = BTreeMap::new();
        let mut handles = vec![];
        for (n, p) in points.into_iter().enumerate() {
            let h = region.insert(Point2::new(p[0] * scale, p[1] * scale)).unwrap();
            mapping.insert(h.index(), n);
            handles.push(h);
        }
        let mut boundary = Vec::new();
        for ring in [vec![0, 1, 2, 3, 4], vec![5, 6, 7, 8]] {
            for i in 0..ring.len() {
                let (a, b) = (ring[i], ring[(i + 1) % ring.len()]);
                region.add_constraint(handles[a], handles[b]);
                boundary.push(key(a, b));
            }
        }
        boundary.sort_unstable();
        region.add_constraint(handles[4], handles[9]);
        let max_area = 0.5 * scale * scale;
        assert!(!seed_material(&mut region, &mapping, &boundary, max_area, 0).unwrap());
        assert_eq!(region.num_vertices(), points.len());
        assert!(seed_material(&mut region, &mapping, &boundary, max_area, 1000).unwrap());
        assert!(region.num_vertices() > points.len());
        for v in region.vertices().filter(|v| !mapping.contains_key(&v.fix().index())) {
            let p = v.position();
            assert!(p.x > 0. && p.x < 10. * scale && p.y > 0. && p.y < 10. * scale);
            assert!(!(p.x > 4. * scale && p.x < 6. * scale && p.y > 4. * scale && p.y < 6. * scale));
        }
        let inside = material_faces(&region, &mapping, &boundary).unwrap();
        let mut area = 0.;
        for f in region.inner_faces().filter(|f| inside.contains(&f.fix().index())) {
            let a = triangle_area(&f.positions());
            assert!(a <= max_area * (1. + 1e-10));
            area += a;
        }
        assert!((area - 96. * scale * scale).abs() < 1e-8 * scale * scale);
        assert_eq!(region.num_constraints(), 10);
    }
}

fn interchange(scale: f64, rotated: bool) -> gmsh::Interchange {
    let topology = topology_of(&fragment(), scale, rotated);
    gmsh::from_assembly(&topology, scalar(0.75 * scale), &package_geometry(&topology)).unwrap()
}

#[test]
fn interchange_preserves_surface_property_and_source_ownership() {
    let data = interchange(1.0, false);
    assert_eq!(data.format, gmsh::FORMAT);
    assert!(data.source_coverage_complete, "{:?}", data.blockers);
    assert_eq!(data.surfaces.len(), 4);
    let stiffness: BTreeSet<_> = data.surfaces.iter().map(|s| s.stiffness).collect();
    assert_eq!(stiffness, BTreeSet::from([10, 20, 30, 40]));
    assert!(data
        .surfaces
        .iter()
        .all(|surface| !surface.source_elements.is_empty() && !surface.rings.is_empty()));
    assert!(data
        .surfaces
        .iter()
        .flat_map(|surface| &surface.rings)
        .all(|ring| ring.len() >= 3 && ring.iter().flatten().all(|x| number(*x).is_finite())));
    assert!(data.surfaces.iter().all(|surface| {
        surface.rings.len() == surface.ring_source_nodes.len()
            && surface
                .rings
                .iter()
                .zip(&surface.ring_source_nodes)
                .all(|(ring, source_nodes)| ring.len() == source_nodes.len())
    }));
}

#[test]
fn interchange_preserves_axis_spans_and_explicit_contacts() {
    let data = interchange(1.0, false);
    assert_eq!(data.axes.len(), 3);
    assert!(!data.contacts.is_empty());
    let bar_stiffness: BTreeSet<_> =
        data.axes.iter().flat_map(|axis| axis.property_spans.iter().map(|span| span.stiffness)).collect();
    assert_eq!(bar_stiffness, BTreeSet::from([50, 60, 70]));
    assert!(data.axes.iter().all(|axis| {
        vector(&axis.endpoints[0]).distance(vector(&axis.endpoints[1])) > 0.0
            && !axis.property_spans.is_empty()
            && axis.property_spans.iter().all(|span| {
                let (start, end) = (number(span.start_t), number(span.end_t));
                start >= 0.0 && end <= 1.0 && end > start
            })
    }));
}

#[test]
fn interchange_is_invariant_in_structure_under_scale_rotation_and_renumbering() {
    let baseline = interchange(1.0, false);
    let changed = interchange(10.0, true);
    assert_eq!(baseline.surfaces.len(), changed.surfaces.len());
    assert_eq!(baseline.axes.len(), changed.axes.len());
    assert_eq!(baseline.contacts.len(), changed.contacts.len());
    let surface_signature = |data: &gmsh::Interchange| {
        let mut values = data
            .surfaces
            .iter()
            .map(|surface| (surface.stiffness, surface.source_elements.len(), surface.rings.len()))
            .collect::<Vec<_>>();
        values.sort_unstable();
        values
    };
    assert_eq!(surface_signature(&baseline), surface_signature(&changed));
    let axis_signature = |data: &gmsh::Interchange| {
        let mut values = data
            .axes
            .iter()
            .map(|axis| {
                let mut stiffness = axis.property_spans.iter().map(|span| span.stiffness).collect::<Vec<_>>();
                stiffness.sort_unstable();
                stiffness
            })
            .collect::<Vec<_>>();
        values.sort();
        values
    };
    assert_eq!(axis_signature(&baseline), axis_signature(&changed));
    let axis_lengths = |data: &gmsh::Interchange| {
        let mut values = data
            .axes
            .iter()
            .map(|axis| vector(&axis.endpoints[0]).distance(vector(&axis.endpoints[1])))
            .collect::<Vec<_>>();
        values.sort_by(f64::total_cmp);
        values
    };
    for (before, after) in axis_lengths(&baseline).into_iter().zip(axis_lengths(&changed)) {
        assert!((after / before - 10.0).abs() < 1e-8);
    }
}

#[test]
fn interchange_refuses_a_broken_package() {
    let refusal = |change: &dyn Fn(&mut assembly::Report), size: f64| {
        let mut topology = topology_of(&fragment(), 1., false);
        change(&mut topology);
        let mut geometry = Geometry { rings: vec![], lengths: vec![], contacts: vec![] };
        for s in topology.preview.surfaces() {
            geometry.rings.push(vec![vec![]; s.contours.len()]);
        }
        geometry.lengths = scalars(topology.axis_assembly.axes.iter().map(|a| if a.spans.is_empty() { 0. } else { 1. }));
        geometry.contacts = vec![[point(DVec3::ZERO); 2]; topology.axis_assembly.contacts.len()];
        gmsh::from_assembly(&topology, scalar(size), &geometry).err()
    };
    assert_eq!(refusal(&|_| {}, 0.75), None);
    assert_eq!(refusal(&|_| {}, 0.0001), Some("invalid Gmsh interchange policy"));
    let provenance = "surface provenance arrays do not match reconstructed surfaces";
    assert_eq!(refusal(&|t| drop(t.surface_stiffness.pop()), 0.75), Some(provenance));
    assert_eq!(
        refusal(&|t| t.preview.reshape_surface(0, vec![]), 0.75),
        Some("surface contour/boundary count mismatch")
    );
    let flatten = |t: &mut assembly::Report| {
        let count = t.preview.surfaces()[0].contours.len();
        t.preview.reshape_surface(0, vec![vec![]; count]);
    };
    assert_eq!(refusal(&flatten, 0.75), Some("invalid Gmsh surface ring"));
    assert_eq!(refusal(&|t| t.vertex_source_nodes.clear(), 0.75), Some("missing surface source-node provenance"));
    assert_eq!(
        refusal(&|t| t.axis_assembly.axes[0].endpoints = [0, 9999], 0.75),
        Some("invalid axis endpoint vertex")
    );
    assert_eq!(refusal(&|t| t.axis_assembly.axes[0].spans.clear(), 0.75), Some("degenerate Gmsh axis"));
    assert_eq!(
        refusal(&|t| t.axis_assembly.axes[0].anchors[0].vertex = 9999, 0.75),
        Some("invalid axis anchor vertex")
    );
    let touch = |axis: usize, surface: usize, t: f64| Contact::Point {
        axis,
        surface,
        vertex: 0,
        t: scalar(t),
        location: Location::Interior,
    };
    let run = |axis: usize, surface: usize, end: f64| Contact::Interval {
        axis,
        surface,
        start_t: scalar(0.),
        end_t: scalar(end),
        location: Location::Interior,
    };
    let with = |contact: Contact| refusal(&|t| t.axis_assembly.contacts.insert(0, contact), 0.75);
    assert_eq!(with(touch(99, 0, 0.5)), Some("invalid contact axis"));
    assert_eq!(with(touch(0, 99, 0.5)), Some("invalid contact surface"));
    assert_eq!(with(touch(0, 0, 2.)), Some("invalid axis contact parameter"));
    assert_eq!(with(run(0, 99, 1.)), Some("invalid interval contact"));
    assert_eq!(with(run(0, 0, 0.)), Some("invalid interval contact"));
    assert_eq!(with(run(0, 0, 1.)), None);
}

/// Plans what to do, with the scales measured around each problem.
fn plan(
    mesh: &MeshData,
    solved: &frame::Report,
    topology: &assembly::Report,
    areas: &Vec<Option<Scalar>>,
    policy: &reconcile::Policy,
) -> Result<reconcile::Report, &'static str> {
    let measures = locate_problems(mesh, solved, topology, areas, policy)
        .iter()
        .map(|problem| {
            let sides = scale_sides(mesh, &problem.source_nodes, &problem.source_elements);
            let placed: Vec<DVec3> = problem.source_nodes.iter().filter_map(|&n| place(mesh, n)).collect();
            ScaleMeasure {
                sides: scalars(sides.into_iter().map(|(a, b)| source(mesh, a).distance(source(mesh, b)))),
                distances: scalars(placed.iter().flat_map(|a| placed.iter().map(|b| a.distance(*b)))),
            }
        })
        .collect();
    reconcile::solve(mesh, solved, topology, areas, &measures, policy)
}

#[test]
fn problems_carry_their_scale_and_an_absolute_residual() {
    let (mesh, mut solved, mut topology) = stages(&fragment(), 1., false);
    let beam = mesh.elements.iter().find(|e| e.is_bar()).unwrap();
    let length = source(&mesh, beam.nodes[0]).distance(source(&mesh, beam.nodes[1]));
    topology.axis_assembly.issues.push(bars::Issue {
        source_axis: 0,
        source_elements: vec![beam.id],
        source_nodes: beam.nodes.clone(),
        reason: "shared_anchors_not_collinear".into(),
    });
    solved.largest_constraint_failures = vec![ConstraintFailure {
        origin: ConstraintOrigin::PlaneIncidence { plane: 999, node_id: 9999 },
        residual: scalar(-0.25),
    }];
    solved.violating_equations = 2;
    let report = plan(&mesh, &solved, &topology, &vec![], &reconcile::Policy::default()).unwrap();
    assert_eq!(report.problems.len(), 3);
    assert_eq!(number(report.problems[0].evidence.local_scale), length);
    // An unknown node has no surroundings.
    assert_eq!(report.problems[1].evidence.local_scale, scalar(1.));
    assert_eq!(report.problems[1].evidence.residual, Some(scalar(0.25)));
    // What the solve leaves unmet as a whole has no place.
    assert_eq!(report.problems[2].kind, ProblemKind::ContinuousConstraintResidual);
    assert_eq!(report.problems[2].evidence.local_scale, scalar(1.));
    assert_eq!(report.problems[2].evidence.residual, Some(solved.candidate_max_residual));
}

#[test]
fn every_element_is_recognized_once() {
    let mut input = fragment();
    input.elements.push(element(7001, 10, 1, vec![1, 1]));
    input.elements.push(element(7002, 10, 1, vec![1, 9999]));
    input.elements.push(element(7003, 44, 1, vec![1, 1, 2, 2]));
    input.elements.push(element(7004, 56, 1, vec![1]));
    let mut ids: Vec<u32> = input.elements.iter().map(|e| e.id).collect();
    ids.sort();
    let found = axes(
        &input,
        &recognize::Policy { angle: scalar(0.02), line_tolerance: scalar(0.001), numerical_precision: scalar(1e-8) },
    )
    .unwrap();
    let mut named: Vec<u32> = found.axes.iter().flat_map(|a| a.spans.iter().map(|s| s.element)).collect();
    named.extend(found.rejected.iter().map(|r| r.element));
    named.extend(&found.non_bar_elements);
    named.sort();
    assert_eq!(named, ids);
    assert_eq!(found.rejected.iter().map(|r| r.element).collect::<Vec<_>>(), [7001, 7002]);
    let supports = patches(
        &input,
        &planes::Policy { angle: scalar(0.02), distance: scalar(0.001), precision: scalar(1e-8) },
    )
    .unwrap();
    let mut named: Vec<u32> = supports.patches.iter().flat_map(|p| p.source_elements.clone()).collect();
    named.extend(supports.rejected.iter().map(|r| r.element));
    named.extend(&supports.non_shell_elements);
    named.sort();
    assert_eq!(named, ids);
    assert_eq!(supports.rejected.iter().map(|r| r.element).collect::<Vec<_>>(), [7003]);
}

#[test]
fn plans_speak_of_every_problem_and_change_nothing() {
    let (mesh, solved, mut topology) = stages(&fragment(), 1., false);
    let policy = reconcile::Policy::default();
    let clean = plan(&mesh, &solved, &topology, &vec![], &policy).unwrap();
    assert!(clean.problems.is_empty() && clean.components.is_empty() && clean.decisions.is_empty());
    let beam = topology.axis_assembly.axes.iter().position(|a| a.spans.iter().any(|s| s.stiffness == 50)).unwrap();
    let column = topology.axis_assembly.axes.iter().position(|a| a.spans.iter().any(|s| s.stiffness == 70)).unwrap();
    let joint = topology.axis_assembly.axes[beam]
        .anchors
        .iter()
        .find(|a| topology.axis_assembly.axes[column].anchors.iter().any(|b| b.vertex == a.vertex))
        .unwrap()
        .source_node;
    topology.issues.push(assembly::Issue {
        patch: 0,
        source_elements: vec![2, 1, 2],
        reason: "degenerate_hole_after_closure".into(),
        boundary_source_nodes: vec![vec![1, 2, 3], vec![4, 5, 6]],
    });
    topology.axis_assembly.issues.push(bars::Issue {
        source_axis: 0,
        source_elements: vec![9001],
        source_nodes: vec![joint],
        reason: "shared_anchors_not_collinear".into(),
    });
    let areas = vec![Some(scalar(1e-5))];
    let report = plan(&mesh, &solved, &topology, &areas, &policy).unwrap();
    assert_eq!(report.problems.len(), 2);
    assert_eq!(report.problems[0].kind, ProblemKind::DegenerateHole);
    assert_eq!(report.problems[0].source_elements, vec![1, 2]);
    assert_eq!(report.problems[0].source_nodes, vec![1, 2, 3, 4, 5, 6]);
    assert_eq!(report.problems[1].kind, ProblemKind::NonCollinearSharedAnchor);
    assert!(report.problems[1].evidence.structural_joint);
    assert_eq!(report.decisions.len(), 2);
    assert_eq!(report.decisions[0].selected_operation, OperationKind::PreserveHole);
    assert_eq!(report.decisions[1].selected_operation, OperationKind::SplitAxisAtStructuralJoint);
    assert_eq!(report.decisions[1].status, DecisionStatus::Planned);
    assert!(!report.geometry_changed && !report.export_ready);
    let wide = vec![Some(scalar(0.5))];
    let other = plan(&mesh, &solved, &topology, &wide, &policy).unwrap();
    assert_eq!(other.problems[0].kind, ProblemKind::OtherSurfaceTopology);
    assert_eq!(other.unresolved_problem_ids, vec![0]);
    let broken = reconcile::Policy { precision: scalar(0.), ..policy };
    let refused = plan(&mesh, &solved, &topology, &areas, &broken);
    assert_eq!(refused.err(), Some("invalid reconciliation policy"));
    let mut short = solved;
    short.candidate_points.pop();
    let refused = plan(&mesh, &short, &topology, &areas, &policy);
    assert_eq!(refused.err(), Some("reconciliation requires complete frame points"));
}

#[test]
fn a_handoff_needs_valid_topology_and_whole_coverage() {
    let (_, mesh) = run(1., false);
    let ready = compute_external_mesher_blockers(true, &mesh.triangles, &vec![], true, true, &vec![], &vec![]);
    assert!(ready.is_empty());
    let blocked =
        compute_external_mesher_blockers(false, &mesh.triangles, &vec![], false, false, &vec![1], &vec![2]);
    assert!(blocked.len() >= 3);
    assert!(blocked.contains(&"unresolved_surface_assembly".to_string()));
    assert!(blocked.contains(&"unresolved_axis_assembly".to_string()));
    assert!(!compute_external_mesher_blockers(true, &vec![], &vec![], true, true, &vec![], &vec![]).is_empty());
}

#[test]
fn faces_are_held_against_their_limits_and_constraints() {
    let limits = FaceLimits {
        precision: scalar(1e-7),
        degenerate_area: scalar(1e-14),
        minimum_angle: scalar(20.),
        maximum_area: scalar(1.),
    };
    let reasons = |p: [DVec3; 3]| face_reasons(&measure_face(p, DVec3::Z, 1e-7), &limits);
    assert_eq!(reasons([DVec3::ZERO, DVec3::X, DVec3::Y]), vec![]);
    assert_eq!(reasons([DVec3::ZERO, DVec3::X * 3., DVec3::Y * 3.]), vec![QualityReason::MaximumArea]);
    assert_eq!(
        reasons([DVec3::ZERO, DVec3::X, DVec3::new(1., 0.1, 0.)]),
        vec![QualityReason::MinimumAngle]
    );
    assert_eq!(reasons([DVec3::ZERO, DVec3::Y, DVec3::X]), vec![QualityReason::DegenerateOrInverted]);
    assert!(reasons([DVec3::ZERO, DVec3::ZERO, DVec3::X]).contains(&QualityReason::ShortEdge));
    // A square of two triangles: its diagonal has a face on either side.
    let faces = vec![[0, 1, 2], [0, 2, 3]];
    let boundary = vec![[0, 1], [0, 3], [1, 2], [2, 3]];
    let mut constraints = boundary.clone();
    assert!(is_conforming(&faces, &constraints, &boundary, &vec![0, 1, 2, 3]));
    assert!(!is_conforming(&faces, &constraints, &boundary, &vec![0, 1, 2, 3, 4]));
    constraints.push([1, 3]);
    assert!(!is_conforming(&faces, &constraints, &boundary, &vec![0, 1, 2, 3]));
    assert!(!is_conforming(&vec![[0, 1, 2]], &boundary, &boundary, &vec![0, 1, 2]));
}
