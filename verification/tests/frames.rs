//! Recognition of axes and planes, the joint solve and the assembly of surfaces and axes.
use geo::{Area, BooleanOps, Contains, Coord, Intersects, Line, LineString, Point as PlanPoint, Polygon};
use geo::line_intersection::{LineIntersection, line_intersection};
use glam::{DQuat, DVec2, DVec3};
use std::collections::{BTreeMap, BTreeSet};
use topo_reconstruct::incidence::Incidence;
use topo_reconstruct::input::{ElementData, MeshData, Point};
use topo_reconstruct::points::PointTable;
use topo_reconstruct::reconstruction::{
    Error, Model, PlaneFrame, RingMeasure, Surface, assembly, frame, planes, recognize,
};
use topo_reconstruct::reconstruction::assembly::{
    Region, RejectedVertex, bars, begin, flatten_regions, pinched_region_splits, property_regions,
    supports_stay_close,
};
use topo_reconstruct::reconstruction::assembly::bars::{
    AnchorMeasure, AxisMeasure, Contact, Interval, Location, merge_intervals, ordered_anchors,
};
use topo_reconstruct::reconstruction::assembly::bars::axes::{
    AxisBuild, AxisTrial, Placement, Stretch, surfaces_at_node, touched_surfaces,
};
use topo_reconstruct::reconstruction::assembly::bars::joints::{
    Joint, JointState, common_planes, find_joint, joint_state, joints,
};
use topo_reconstruct::reconstruction::assembly::bars::repair::{
    OverlapMeasure, Proposal, Repairs, no_new_coplanar_overlap, propose_movement,
};
use topo_reconstruct::reconstruction::assembly::boundary::{Face, boundary};
use topo_reconstruct::reconstruction::assembly::features::{FeaturePolicy, HoleMeasure, Simplification};
use topo_reconstruct::reconstruction::assembly::holes::{
    HoleConstraint, HoleOutcome, NodeTrial, Recovery, RegionRings, common_supports,
};
use topo_reconstruct::reconstruction::assembly::pinch::split_pinched_regions;
use topo_reconstruct::reconstruction::assembly::supports::{
    Closure, NodeSurfaces, Supports, boundary_owners, close, junction,
};
use topo_reconstruct::reconstruction::assembly::surfaces::{SurfaceBuild, exterior_first};
use topo_reconstruct::reconstruction::axes::{AngleLimits, Direction, lean};
use topo_reconstruct::reconstruction::frame::{ConstraintOrigin, Outcome, Prepared, conclude, prepare};
use topo_reconstruct::reconstruction::frame::equations::{Constraint, constraints, worst_failures};
use topo_reconstruct::reconstruction::frame::sliding::{first_better, parameters, read_back};
use topo_reconstruct::reconstruction::graph::{Entity, Graph};
use topo_reconstruct::reconstruction::planes::{PlaneFit, coplanar_groups, facet_pairs, survey_shells};
use topo_reconstruct::reconstruction::recognize::{Bar, ChordMeasure, chains, meeting_halves, mutual_links, survey};
use topo_reconstruct::scalar::Scalar;

fn scalar(value: f64) -> Scalar {
    Scalar { bits: value.to_bits() }
}

fn number(value: Scalar) -> f64 {
    f64::from_bits(value.bits)
}

fn scalars(values: impl IntoIterator<Item = f64>) -> Vec<Scalar> {
    values.into_iter().map(scalar).collect()
}

fn point(v: DVec3) -> Point {
    [scalar(v.x), scalar(v.y), scalar(v.z)]
}

fn vector(p: &Point) -> DVec3 {
    DVec3::new(number(p[0]), number(p[1]), number(p[2]))
}

/// The plane of least squares through points, by Jacobi rotations of their
/// covariance. A single straight line does not determine one.
fn fit(points: &[DVec3], reference: DVec3) -> Option<(DVec3, f64)> {
    if points.len() < 3 {
        return None;
    }
    let center = points.iter().copied().sum::<DVec3>() / points.len() as f64;
    let mut a = [[0.0; 3]; 3];
    let mut v = [[1.0, 0.0, 0.0], [0.0, 1.0, 0.0], [0.0, 0.0, 1.0]];
    for p in points {
        let d = (*p - center).to_array();
        for i in 0..3 {
            for j in 0..3 {
                a[i][j] += d[i] * d[j];
            }
        }
    }
    let scale = a[0][0] + a[1][1] + a[2][2];
    if scale <= 1e-20 {
        return None;
    }
    for _ in 0..40 {
        let (p, q) = [(0, 1), (0, 2), (1, 2)]
            .into_iter()
            .max_by(|&(p, q): &(usize, usize), &(i, j): &(usize, usize)| a[p][q].abs().total_cmp(&a[i][j].abs()))?;
        if a[p][q].abs() < scale * 1e-14 {
            break;
        }
        let angle = 0.5 * (2.0 * a[p][q]).atan2(a[q][q] - a[p][p]);
        let (c, s) = (angle.cos(), angle.sin());
        let (app, aqq, apq) = (a[p][p], a[q][q], a[p][q]);
        a[p][p] = c * c * app - 2.0 * c * s * apq + s * s * aqq;
        a[q][q] = s * s * app + 2.0 * c * s * apq + c * c * aqq;
        a[p][q] = 0.0;
        a[q][p] = 0.0;
        for k in 0..3 {
            if k != p && k != q {
                let (x, y) = (a[k][p], a[k][q]);
                a[k][p] = c * x - s * y;
                a[p][k] = a[k][p];
                a[k][q] = s * x + c * y;
                a[q][k] = a[k][q];
            }
            let (x, y) = (v[k][p], v[k][q]);
            v[k][p] = c * x - s * y;
            v[k][q] = s * x + c * y;
        }
    }
    let mut order = [0, 1, 2];
    order.sort_by(|&i: &usize, &j: &usize| a[i][i].total_cmp(&a[j][j]));
    if a[order[1]][order[1]] < scale * 1e-10 {
        return None;
    }
    let k = order[0];
    let mut n = DVec3::new(v[0][k], v[1][k], v[2][k]).normalize();
    if n.dot(reference) < 0.0 {
        n = -n;
    }
    Some((n, -n.dot(center)))
}

/// Where a node is, unless it is unknown or not finite.
fn place(mesh: &MeshData, node: u32) -> Option<DVec3> {
    mesh.nodes.get(node).map(|p| vector(&p)).filter(|p| p.is_finite())
}

/// A frame of the plane through a point and across a direction.
fn plane_frame(origin: DVec3, direction: DVec3) -> Option<PlaneFrame> {
    let length = direction.length();
    if !origin.is_finite() || !direction.is_finite() || !length.is_finite() || length == 0.0 {
        return None;
    }
    let normal = direction.normalize();
    let helper = if normal.z.abs() < 0.9 { DVec3::Z } else { DVec3::X };
    let u = helper.cross(normal).normalize();
    let v = normal.cross(u);
    Some(PlaneFrame { origin: point(origin), normal: point(normal), u: point(u), v: point(v) })
}

/// The coordinates of a point in a frame.
fn project(frame: &PlaneFrame, p: DVec3) -> [f64; 2] {
    let d = p - vector(&frame.origin);
    [d.dot(vector(&frame.u)), d.dot(vector(&frame.v))]
}

/// The signed distance of a point from a plane.
fn distance(frame: &PlaneFrame, p: DVec3) -> f64 {
    (p - vector(&frame.origin)).dot(vector(&frame.normal))
}

/// The point of a plane at given coordinates.
fn lift(frame: &PlaneFrame, uv: [f64; 2]) -> DVec3 {
    vector(&frame.origin) + uv[0] * vector(&frame.u) + uv[1] * vector(&frame.v)
}

fn chord(mesh: &MeshData, nodes: &[u32], angle: f64) -> ChordMeasure {
    let points: Vec<DVec3> = nodes.iter().map(|&n| place(mesh, n).unwrap_or(DVec3::NAN)).collect();
    let (a, b) = (points[0], points[points.len() - 1]);
    let delta = b - a;
    let length = delta.length();
    let parameters: Vec<f64> = points.iter().map(|p| (*p - a).dot(delta) / delta.length_squared()).collect();
    let distances = scalars(points.iter().zip(&parameters).map(|(p, t)| p.distance(a + *t * delta)));
    let along = points
        .windows(2)
        .map(|w| !((w[1] - w[0]).normalize().dot(delta / length) < angle.cos()))
        .collect();
    ChordMeasure {
        endpoints: [point(a), point(b)],
        length: scalar(length),
        parameters: scalars(parameters),
        distances,
        along,
    }
}

fn half_direction(mesh: &MeshData, bars: &[Bar], half: usize) -> DVec3 {
    let ends = bars[half / 2].ends;
    let here = place(mesh, ends[half % 2]).unwrap_or(DVec3::NAN);
    let there = place(mesh, ends[1 - half % 2]).unwrap_or(DVec3::NAN);
    (there - here).normalize()
}

/// Recovers continuous straight axes.
fn axes(mesh: &MeshData, policy: &recognize::Policy) -> Result<recognize::Report, &'static str> {
    let lengths = mesh
        .elements
        .iter()
        .map(|e| {
            let ends: Vec<DVec3> = e.nodes.iter().filter_map(|&n| place(mesh, n)).collect();
            scalar(if ends.len() == 2 { ends[0].distance(ends[1]) } else { 0.0 })
        })
        .collect();
    let found = survey(mesh, policy, &lengths)?;
    let (mut report, bars) = recognize::Report::start(policy, found);
    let angle = number(policy.angle);
    let opposed = meeting_halves(&bars)
        .into_iter()
        .filter(|&(a, b)| half_direction(mesh, &bars, a).dot(half_direction(mesh, &bars, b)) <= -angle.cos())
        .collect();
    let links = mutual_links(&bars, &opposed);
    let incidence = Incidence::of_mesh(mesh);
    for chain in chains(mesh, &bars, &links) {
        if chain.path.is_empty() {
            let measures = chain.members.iter().map(|&b| chord(mesh, &bars[b].ends, angle)).collect();
            report.take_ring(mesh, &incidence, &bars, &chain.members, &measures)?;
        } else {
            let n = chain.path.len();
            let stretches = (0..n)
                .map(|i| (i + 1..=n).map(|j| chord(mesh, &chain.nodes[i..=j], angle)).collect())
                .collect();
            report.take_path(mesh, &incidence, &bars, &chain.members, &chain.path, &chain.nodes, &stretches)?;
        }
    }
    Ok(report)
}

fn center(points: &[DVec3]) -> DVec3 {
    points.iter().copied().sum::<DVec3>() / points.len() as f64
}

/// The perimeter of a convex shell, whatever the order of its nodes.
fn ordered_facet_nodes(mesh: &MeshData, e: &ElementData, normal: DVec3, precision: f64) -> Option<Vec<u32>> {
    if !e.is_shell() || e.nodes.iter().collect::<BTreeSet<_>>().len() != e.nodes.len() {
        return None;
    }
    let points: Vec<DVec3> = e.nodes.iter().map(|&n| place(mesh, n)).collect::<Option<_>>()?;
    let middle = center(&points);
    let frame = plane_frame(middle, normal)?;
    let turn = |p: DVec3| {
        let [x, y] = project(&frame, p);
        y.atan2(x)
    };
    let mut order: Vec<usize> = (0..points.len()).collect();
    order.sort_by(|&i, &j| turn(points[i]).total_cmp(&turn(points[j])));
    let at = |i: usize| points[order[i % order.len()]];
    for i in 0..order.len() {
        let (a, b, c) = (at(i), at(i + 1), at(i + 2));
        if a.distance(b) <= precision || (b - a).cross(c - b).dot(normal) <= precision * precision {
            return None;
        }
    }
    Some(order.into_iter().map(|i| e.nodes[i]).collect())
}

fn perimeter(mesh: &MeshData, e: &ElementData, policy: &planes::Policy) -> Option<Vec<u32>> {
    let points: Vec<DVec3> = e.nodes.iter().map(|&n| place(mesh, n)).collect::<Option<_>>()?;
    let (n, _) = fit(&points, DVec3::Z)?;
    let middle = center(&points);
    if points.iter().any(|p| n.dot(*p - middle).abs() > number(policy.distance)) {
        return None;
    }
    ordered_facet_nodes(mesh, e, n, number(policy.precision))
}

fn places(mesh: &MeshData, nodes: &[u32]) -> Vec<DVec3> {
    nodes.iter().filter_map(|&n| place(mesh, n)).collect()
}

/// Recovers connected planar patches.
fn patches(mesh: &MeshData, policy: &planes::Policy) -> Result<planes::Report, &'static str> {
    let perimeters = mesh
        .elements
        .iter()
        .map(|e| if e.is_shell() { perimeter(mesh, e, policy) } else { None })
        .collect();
    let found = survey_shells(mesh, policy, &perimeters)?;
    let (mut report, facets) = planes::Report::start(policy, found);
    let (angle, distance) = (number(policy.angle), number(policy.distance));
    let spread: Vec<(DVec3, DVec3, Vec<DVec3>)> = facets
        .iter()
        .map(|f| {
            let own = places(mesh, &mesh.elements[f.element].nodes);
            let normal = fit(&own, DVec3::Z).map_or(DVec3::NAN, |f| f.0);
            (normal, center(&own), own)
        })
        .collect();
    let pairs = facet_pairs(&facets);
    let coplanar = pairs
        .iter()
        .map(|&(a, b)| {
            let ((x, cx, px), (y, cy, py)) = (&spread[a], &spread[b]);
            x.dot(*y).abs() >= angle.cos()
                && py.iter().all(|p| x.dot(*p - *cx).abs() <= distance)
                && px.iter().all(|p| y.dot(*p - *cy).abs() <= distance)
        })
        .collect();
    let measure = |group: &[usize]| -> Option<PlaneFit> {
        let nodes: BTreeSet<u32> = group.iter().flat_map(|&f| facets[f].nodes.iter().copied()).collect();
        let points: Vec<DVec3> = nodes.iter().filter_map(|&n| place(mesh, n)).collect();
        let (normal, _) = fit(&points, spread[*group.first()?].0)?;
        let middle = center(&points);
        Some(PlaneFit {
            plane: plane_frame(middle, normal)?,
            maximum_deviation: scalar(points.iter().map(|p| normal.dot(*p - middle).abs()).fold(0.0, f64::max)),
            aligned: group.iter().map(|&f| !(normal.dot(spread[f].0).abs() < angle.cos())).collect(),
        })
    };
    for group in coplanar_groups(&facets, &pairs, &coplanar) {
        let singles = group.iter().map(|&f| measure(&[f])).collect();
        report.take_group(&facets, &group, measure(&group), singles)?;
    }
    Ok(report)
}

struct Equation {
    terms: Vec<(usize, f64)>,
    origin: ConstraintOrigin,
}

impl Equation {
    fn residual(&self, x: &[f64]) -> f64 {
        self.terms.iter().map(|&(i, a)| a * x[i]).sum()
    }
}

fn equation(terms: Vec<(usize, f64)>, origin: ConstraintOrigin) -> Equation {
    let mut combined = BTreeMap::<usize, f64>::new();
    for (i, a) in terms {
        *combined.entry(i).or_default() += a;
    }
    Equation { terms: combined.into_iter().filter(|(_, a)| a.abs() > 1e-14).collect(), origin }
}

/// The equations of the solved nodes and supports, with the directions that the
/// supports take.
fn set_up(prepared: &Prepared, policy: &frame::Policy, center: DVec3) -> (Vec<Equation>, Vec<f64>, Vec<DVec3>) {
    let (angle, up) = (number(policy.angle), vector(&policy.up).normalize());
    let limits = AngleLimits { cosine: scalar(angle.cos()), sine: scalar(angle.sin()) };
    let helper = if up.z.abs() < 0.9 { DVec3::Z } else { DVec3::X };
    let u = helper.cross(up).normalize();
    let v = up.cross(u);
    let reference: Vec<DVec3> = prepared.reference.iter().map(vector).collect();
    let mut x: Vec<f64> = reference.iter().flat_map(|p| (*p - center).to_array()).collect();
    let base = x.len();
    let mut normals = Vec::new();
    for surface in &prepared.surfaces {
        let old = vector(&surface.plane.normal);
        let cosine = old.dot(up);
        let normal = match lean(&scalar(cosine.abs()), &limits) {
            Direction::Vertical => up * cosine.signum(),
            Direction::Horizontal => (old - up * cosine).normalize(),
            Direction::Inclined => old,
        };
        let origin =
            surface.nodes.iter().map(|&n| reference[n] - center).sum::<DVec3>() / surface.nodes.len() as f64;
        x.push(normal.dot(origin));
        normals.push(normal);
    }
    let directions: Vec<Direction> = prepared
        .axes
        .iter()
        .map(|axis| {
            let [a, b] = axis.endpoints;
            lean(&scalar((reference[b] - reference[a]).normalize().dot(up).abs()), &limits)
        })
        .collect();
    let terms = |c: &Constraint| match c.origin {
        ConstraintOrigin::AxisAnchor { axis, component: k, .. } => {
            let [a, b] = prepared.axes[axis].endpoints;
            let anchor = &prepared.axes[axis].anchors[c.place];
            let t = number(anchor.t);
            vec![(anchor.node * 3 + k, 1.), (a * 3 + k, -(1. - t)), (b * 3 + k, -t)]
        }
        ConstraintOrigin::AxisDirection { axis } => {
            let [a, b] = prepared.axes[axis].endpoints;
            let n = if directions[axis] == Direction::Vertical { [u, v][c.place] } else { up };
            (0..3).flat_map(|k| [(a * 3 + k, n[k]), (b * 3 + k, -n[k])]).collect()
        }
        ConstraintOrigin::PlaneIncidence { plane, .. } => {
            let (n, normal) = (prepared.surfaces[plane].nodes[c.place], normals[plane]);
            vec![(n * 3, normal.x), (n * 3 + 1, normal.y), (n * 3 + 2, normal.z), (base + plane, -1.)]
        }
        ConstraintOrigin::ShortAxisVector { .. } => Vec::new(),
    };
    let mut equations: Vec<Equation> =
        constraints(prepared, &directions).iter().map(|c| equation(terms(c), c.origin)).collect();
    equations.retain(|e| !e.terms.is_empty());
    (equations, x, normals)
}

fn greatest_residual(equations: &[Equation], x: &[f64]) -> f64 {
    equations.iter().map(|e| e.residual(x).abs()).fold(0.0, f64::max)
}

/// Projection with the least displacement onto the common linear constraints, by
/// preconditioned conjugate gradients. Redundant incidences are permitted.
fn project_onto(equations: &[Equation], x: &mut [f64], limit: usize, tolerance: f64) -> (f64, usize) {
    let mut r: Vec<f64> = equations.iter().map(|e| e.residual(x)).collect();
    let diagonal: Vec<f64> = equations.iter().map(|e| e.terms.iter().map(|(_, a)| a * a).sum()).collect();
    let mut direction: Vec<f64> = r.iter().zip(&diagonal).map(|(r, d)| r / d).collect();
    let mut rz: f64 = r.iter().zip(&direction).map(|(a, b)| a * b).sum();
    let mut residual = r.iter().map(|v| v.abs()).fold(0.0, f64::max);
    let mut iterations = 0;
    for step in 0..limit {
        if residual <= tolerance {
            break;
        }
        let mut transpose = vec![0.0; x.len()];
        for (e, p) in equations.iter().zip(&direction) {
            for &(i, a) in &e.terms {
                transpose[i] += a * p;
            }
        }
        let denominator: f64 = transpose.iter().map(|v| v * v).sum();
        if !denominator.is_finite() || denominator <= 1e-30 {
            break;
        }
        let alpha = rz / denominator;
        for (xi, di) in x.iter_mut().zip(&transpose) {
            *xi -= alpha * di;
        }
        for (ri, e) in r.iter_mut().zip(equations) {
            *ri -= alpha * e.residual(&transpose);
        }
        // The true residual decides: a residual carried along can drift.
        residual = greatest_residual(equations, x);
        iterations = step + 1;
        let next: f64 = r.iter().zip(&diagonal).map(|(r, d)| r * r / d).sum();
        if !next.is_finite() || rz <= 1e-30 {
            break;
        }
        let beta = next / rz;
        for ((p, r), d) in direction.iter_mut().zip(&r).zip(&diagonal) {
            *p = r / d + beta * (*p);
        }
        rz = next;
    }
    (residual, iterations)
}

/// Solves for nodes and supports together.
fn solve(
    mesh: &MeshData,
    axes: &recognize::Report,
    planes: &planes::Report,
    policy: &frame::Policy,
) -> Result<frame::Report, &'static str> {
    let lengths: Vec<f64> = axes
        .axes
        .iter()
        .map(|a| {
            let ends = a.endpoint_nodes.map(|n| place(mesh, n).unwrap_or(DVec3::NAN));
            ends[0].distance(ends[1])
        })
        .collect();
    let caps = scalars(
        lengths.iter().map(|l| number(policy.maximum_movement).min(number(policy.relative_movement) * l)),
    );
    let source_lengths = scalars(lengths.iter().copied());
    let up = scalar(vector(&policy.up).length());
    let prepared = prepare(mesh, &axes.axes, &planes.patches, policy, &up, &source_lengths, &caps)?;
    let reference: Vec<DVec3> = prepared.reference.iter().map(vector).collect();
    let center = reference.first().copied().unwrap_or(DVec3::ZERO);
    let (equations, mut x, normals) = set_up(&prepared, policy, center);
    let tolerance = number(policy.residual_tolerance);
    let (residual, iterations) = project_onto(&equations, &mut x, policy.iterations, tolerance);
    let base = reference.len() * 3;
    let candidate: Vec<DVec3> = (0..reference.len())
        .map(|i| center + DVec3::new(x[i * 3], x[i * 3 + 1], x[i * 3 + 2]))
        .collect();
    let origins = equations.iter().map(|e| e.origin).collect();
    let residuals = scalars(equations.iter().map(|e| e.residual(&x).abs()));
    let (violating_equations, failures) = worst_failures(&origins, &residuals, &policy.residual_tolerance, 20);
    let span = |axis: &[usize; 2], points: &[DVec3]| points[axis[1]] - points[axis[0]];
    let outcome = Outcome {
        iterations,
        residual: scalar(residual),
        equation_count: equations.len(),
        violating_equations,
        movements: scalars(candidate.iter().zip(&reference).map(|(p, o)| p.distance(*o))),
        limits: scalars(prepared.budgets.iter().map(|b| number(*b) + 1e-10)),
        axes_hold: prepared
            .axes
            .iter()
            .map(|a| {
                let (d, old) = (span(&a.endpoints, &candidate), span(&a.endpoints, &reference));
                d.length() >= number(policy.minimum_length).min(old.length()) && d.dot(old) > 0.0
            })
            .collect(),
        candidate_lengths: scalars(prepared.axes.iter().map(|a| span(&a.endpoints, &candidate).length())),
        planes: prepared
            .surfaces
            .iter()
            .enumerate()
            .map(|(i, s)| {
                let (origin, n) = (vector(&s.plane.origin), normals[i]);
                plane_frame(origin + n * (x[base + i] - n.dot(origin - center)), n)
            })
            .collect(),
        plane_families: Vec::new(),
        constraint_failures: failures,
        candidate: candidate.into_iter().map(point).collect(),
    };
    conclude(policy, prepared, outcome, &source_lengths)
}

fn polygon(contour: &[[f64; 2]]) -> Polygon<f64> {
    Polygon::new(
        LineString::from(contour.iter().chain(contour.first()).map(|p| (p[0], p[1])).collect::<Vec<_>>()),
        vec![],
    )
}

/// Whether a contour has area and neither crosses nor folds back on itself.
fn is_simple(points: &[[f64; 2]], epsilon: f64) -> bool {
    let n = points.len();
    if n == 0 {
        return false;
    }
    let side = |i: usize| {
        let (a, b) = (points[i], points[(i + 1) % n]);
        Line::new((a[0], a[1]), (b[0], b[1]))
    };
    let turn = |o: [f64; 2], a: [f64; 2], b: [f64; 2]| (a[0] - o[0]) * (b[1] - o[1]) - (a[1] - o[1]) * (b[0] - o[0]);
    let area: f64 = (0..n).map(|i| turn(points[0], points[i], points[(i + 1) % n])).sum();
    if !area.is_finite() || area.abs() <= epsilon * epsilon {
        return false;
    }
    (0..n).all(|i| {
        let apart = (i + 2..n).filter(|&j| !(i == 0 && j == n - 1)).all(|j| !side(i).intersects(&side(j)));
        let (a, b, c) = (points[(i + n - 1) % n], points[i], points[(i + 1) % n]);
        let dot = (a[0] - b[0]) * (c[0] - b[0]) + (a[1] - b[1]) * (c[1] - b[1]);
        apart && !(turn(b, a, c).abs() <= epsilon * epsilon && dot > 0.0)
    })
}

/// What a surface's rings measure in the frame of its plane.
fn measure_rings(frame: &PlaneFrame, rings: &[Vec<DVec3>], precision: f64) -> Vec<RingMeasure> {
    let contours: Vec<Vec<[f64; 2]>> =
        rings.iter().map(|r| r.iter().map(|p| project(frame, *p)).collect()).collect();
    rings
        .iter()
        .zip(&contours)
        .enumerate()
        .map(|(k, (ring, uv))| {
            let own = polygon(uv);
            RingMeasure {
                offsets: scalars(ring.iter().map(|p| distance(frame, *p).abs())),
                contour: uv.iter().map(|p| [scalar(p[0]), scalar(p[1])]).collect(),
                lengths: scalars((0..uv.len()).map(|i| {
                    let (a, b) = (uv[i], uv[(i + 1) % uv.len()]);
                    (a[0] - b[0]).hypot(a[1] - b[1])
                })),
                simple: is_simple(uv, precision),
                inside: k == 0 || {
                    let outer = polygon(&contours[0]);
                    outer.contains(&own) && !outer.exterior().intersects(own.exterior())
                },
                clear_of: (0..k).map(|j| j == 0 || !polygon(&contours[j]).intersects(&own)).collect(),
            }
        })
        .collect()
}

/// The least movement onto all planes; planes that do not meet are refused.
fn intersection(p: DVec3, planes: &[&PlaneFrame], precision: f64) -> Option<DVec3> {
    let mut basis: Vec<(DVec3, f64)> = Vec::new();
    for plane in planes {
        let mut n = vector(&plane.normal);
        let mut rhs = -distance(plane, p);
        for &(q, t) in &basis {
            let a = n.dot(q);
            n -= a * q;
            rhs -= a * t;
        }
        let length = n.length();
        if length > 1e-10 && basis.len() < 3 {
            basis.push((n / length, rhs / length));
        }
    }
    let result = p + basis.iter().map(|(n, t)| *n * *t).sum::<DVec3>();
    (result.is_finite() && planes.iter().all(|f| distance(f, result).abs() <= precision)).then_some(result)
}

/// Moves support offsets so that the supports of every junction meet; normals stay.
fn concurrent_supports(planes: &[PlaneFrame], junctions: &[Vec<usize>]) -> Vec<PlaneFrame> {
    let Some(first) = planes.first() else {
        return Vec::new();
    };
    let center = vector(&first.origin);
    let offsets: Vec<f64> =
        planes.iter().map(|p| vector(&p.normal).dot(vector(&p.origin) - center)).collect();
    let mut constraints: Vec<Vec<f64>> = Vec::new();
    let reduce = |row: &mut Vec<f64>, other: &[f64], a: f64| {
        for (v, b) in row.iter_mut().zip(other) {
            *v -= a * b;
        }
    };
    for junction in junctions {
        let mut basis: Vec<(DVec3, Vec<f64>)> = Vec::new();
        for &i in junction {
            let mut n = vector(&planes[i].normal);
            let mut row = vec![0.; planes.len()];
            row[i] = 1.;
            for (q, r) in &basis {
                let a = n.dot(*q);
                n -= a * *q;
                reduce(&mut row, r, a);
            }
            let length = n.length();
            if length > 1e-10 && basis.len() < 3 {
                row.iter_mut().for_each(|v| *v /= length);
                basis.push((n / length, row));
                continue;
            }
            // Twice, so that repeated rows are not amplified.
            for _ in 0..2 {
                for q in &constraints {
                    let a: f64 = row.iter().zip(q).map(|(a, b)| a * b).sum();
                    reduce(&mut row, q, a);
                }
            }
            let length = row.iter().map(|v| v * v).sum::<f64>().sqrt();
            if length > 1e-10 {
                row.iter_mut().for_each(|v| *v /= length);
                constraints.push(row);
            }
        }
    }
    let mut corrected = offsets.clone();
    for row in constraints {
        let error: f64 = row.iter().zip(&offsets).map(|(a, b)| a * b).sum();
        reduce(&mut corrected, &row, error);
    }
    planes
        .iter()
        .enumerate()
        .map(|(i, p)| PlaneFrame {
            origin: point(vector(&p.origin) + vector(&p.normal) * (corrected[i] - offsets[i])),
            ..*p
        })
        .collect()
}

/// How far a node may move from its source.
fn movement_budget(mesh: &MeshData, source: &frame::Report, index: usize) -> f64 {
    let mut budget = number(source.policy.maximum_movement);
    for axis in &source.axes {
        if axis.anchors.iter().any(|a| a.node == index) {
            let ends = axis.endpoints.map(|i| place(mesh, source.node_ids[i]).unwrap_or(DVec3::NAN));
            budget = budget.min(number(source.policy.relative_movement) * ends[0].distance(ends[1]));
        }
    }
    budget
}

fn area(uv: &[[f64; 2]]) -> f64 {
    (0..uv.len())
        .map(|i| {
            let (a, b, o) = (uv[i], uv[(i + 1) % uv.len()], uv[0]);
            (a[0] - o[0]) * (b[1] - o[1]) - (a[1] - o[1]) * (b[0] - o[0])
        })
        .sum::<f64>()
        .abs()
        / 2.
}

fn ring_area(plane: &PlaneFrame, ring: &[DVec3]) -> f64 {
    area(&ring.iter().map(|p| project(plane, *p)).collect::<Vec<_>>())
}

fn source_points(mesh: &MeshData, ring: &[u32]) -> Vec<DVec3> {
    ring.iter().map(|&n| place(mesh, n).unwrap_or(DVec3::NAN)).collect()
}

fn normal_rank(indices: &[usize], supports: &[PlaneFrame]) -> usize {
    let mut basis: Vec<DVec3> = Vec::new();
    for &i in indices {
        let mut n = vector(&supports[i].normal);
        for _ in 0..2 {
            for &q in &basis {
                n -= q * q.dot(n);
            }
        }
        if n.length() > 1e-10 && basis.len() < 3 {
            basis.push(n.normalize());
        }
    }
    basis.len()
}

/// Whether rings make a surface of their own, nodes taken where `at` has them.
fn rings_hold(
    plane: &PlaneFrame,
    loops: &[Vec<u32>],
    at: &dyn Fn(u32) -> Option<DVec3>,
    policy: &assembly::Policy,
) -> bool {
    let Ok(mut model) = Model::new(policy.precision, policy.minimum_edge) else {
        return false;
    };
    let frame = model.add_plane(*plane);
    let mut vertices = BTreeMap::new();
    for &n in loops.iter().flatten() {
        let Some(p) = at(n) else {
            return false;
        };
        if !vertices.contains_key(&n) {
            let Ok(v) = model.add_vertex(point(p)) else {
                return false;
            };
            vertices.insert(n, v);
        }
    }
    let points: Vec<Vec<DVec3>> =
        loops.iter().map(|r| r.iter().map(|&n| at(n).unwrap_or(DVec3::NAN)).collect()).collect();
    let rings = loops.iter().map(|r| r.iter().map(|n| vertices[n]).collect()).collect();
    let measures = measure_rings(plane, &points, number(policy.precision));
    model.add_surface(frame, rings, Vec::new(), measures).is_ok()
}

fn find_supports(source: &frame::Report, tolerance: f64) -> Vec<usize> {
    let mut supports = Supports::new(&source.surfaces);
    let candidates: Vec<DVec3> = source.candidate_points.iter().map(vector).collect();
    while let Some(master) = supports.next_master() {
        let plane = &source.candidate_planes[master];
        let compatible = source
            .surfaces
            .iter()
            .zip(&source.candidate_planes)
            .map(|(s, other)| {
                vector(&plane.normal).dot(vector(&other.normal)).abs() >= number(source.policy.angle).cos()
                    && s.nodes.iter().all(|&n| distance(plane, candidates[n]).abs() <= tolerance)
            })
            .collect();
        supports.absorb(&source.surfaces, master, &compatible);
    }
    supports.representatives().clone()
}

/// Recovers openings on fixed supports.
#[allow(clippy::too_many_arguments)]
fn recover_holes(
    mesh: &MeshData,
    source: &frame::Report,
    policy: &assembly::Policy,
    regions: &[Region],
    rings: &Vec<RegionRings>,
    owners: &Vec<NodeSurfaces>,
    representatives: &Vec<usize>,
    supports: &[PlaneFrame],
    points: PointTable,
) -> Recovery {
    let precision = number(policy.precision);
    let mut recovery = Recovery::new(points);
    let support = |region: usize| &supports[representatives[regions[region].patch]];
    let met = |node: u32, from: DVec3| {
        let own = owners.iter().find(|o| o.node == node)?;
        let planes: Vec<&PlaneFrame> = own.surfaces.iter().map(|&s| &supports[representatives[s]]).collect();
        intersection(from, &planes, precision)
    };
    for entry in rings {
        let (plane, loops) = (support(entry.region), &entry.loops);
        let now = |n: u32| recovery.points.get(n).map(|p| vector(&p));
        if loops.len() < 2 || rings_hold(plane, loops, &now, policy) {
            continue;
        }
        let constraints = loops[1..]
            .iter()
            .map(|ring| {
                let common = common_supports(ring, owners, representatives);
                HoleConstraint {
                    source_nodes: ring.clone(),
                    normal_rank: normal_rank(&common, supports),
                    common_supports: common,
                }
            })
            .collect();
        let flat = |n: u32| place(mesh, n).map(|p| lift(plane, project(plane, p)));
        let source_valid = rings_hold(plane, loops, &flat, policy);
        let trials = loops[1..]
            .iter()
            .flatten()
            .map(|&node| {
                let reference = place(mesh, node).unwrap_or(DVec3::NAN);
                let index = source.node_ids.iter().position(|n| *n == node).unwrap_or(0);
                let target = met(node, reference);
                let q = target.unwrap_or(DVec3::NAN);
                NodeTrial {
                    node,
                    index,
                    closed: now(node).is_some(),
                    target: target.map(point),
                    from_current: scalar(now(node).map_or(f64::NAN, |p| q.distance(p))),
                    from_candidate: scalar(q.distance(vector(&source.candidate_points[index]))),
                    from_reference: scalar(q.distance(reference)),
                    allowance: scalar(movement_budget(mesh, source, index) + precision),
                }
            })
            .collect();
        let region = &regions[entry.region];
        recovery.propose(
            region.patch,
            region.elements.clone(),
            constraints,
            source_valid,
            &trials,
            rings,
            &source.axes,
            policy,
        );
    }
    for group in recovery.groups() {
        let affected: BTreeSet<usize> =
            group.iter().flat_map(|&i| recovery.attempts[i].affected.iter().copied()).collect();
        let then = |n: u32| recovery.proposed(&group, n).map(|p| vector(&p));
        let valid = rings
            .iter()
            .filter(|e| affected.contains(&e.region))
            .all(|e| rings_hold(support(e.region), &e.loops, &then, policy));
        recovery.settle(&group, valid);
    }
    recovery
}

/// Assembles the surfaces and axes of a solved frame.
fn assemble(mesh: &MeshData, source: &frame::Report, policy: &assembly::Policy) -> Result<assembly::Report, &'static str> {
    let model = begin(source, policy)?;
    let precision = number(policy.precision);
    let index: BTreeMap<u32, usize> = mesh.elements.iter().enumerate().map(|(i, e)| (e.id, i)).collect();
    let mut perimeters = vec![None; mesh.elements.len()];
    for (surface, plane) in source.surfaces.iter().zip(&source.candidate_planes) {
        for e in surface.source_elements.iter().filter_map(|id| index.get(id)) {
            perimeters[*e] = ordered_facet_nodes(mesh, &mesh.elements[*e], vector(&plane.normal), precision);
        }
    }
    let groups = property_regions(mesh, &source.surfaces, &perimeters)?;
    let splits = pinched_region_splits(&groups);
    let regions = flatten_regions(&groups);
    let mut unbounded = Vec::new();
    let mut rings = Vec::new();
    for (i, region) in regions.iter().enumerate() {
        let faces = region
            .elements
            .iter()
            .map(|id| Face { id: *id, nodes: perimeters[index[id]].clone().unwrap_or_default() })
            .collect();
        match boundary(&faces) {
            Ok(found) => {
                let plane = &source.candidate_planes[region.patch];
                let areas = scalars(found.iter().map(|r| ring_area(plane, &source_points(mesh, r))));
                rings.push(RegionRings { region: i, loops: exterior_first(&found, &areas) });
            }
            Err(reason) => unbounded.push((i, reason)),
        }
    }
    let on_boundary: BTreeSet<u32> = rings.iter().flat_map(|r| r.loops.iter().flatten().copied()).collect();
    let owners = boundary_owners(&source.surfaces, &source.node_ids, &on_boundary.into_iter().collect())?;
    let representatives = find_supports(source, number(policy.closure_tolerance));
    let junctions: Vec<Vec<usize>> = owners.iter().map(|o| junction(&o.surfaces, &representatives)).collect();
    let candidates: Vec<DVec3> = source.candidate_points.iter().map(vector).collect();
    let moved = concurrent_supports(&source.candidate_planes, &junctions);
    let distances = source
        .surfaces
        .iter()
        .enumerate()
        .map(|(i, s)| {
            scalars(s.nodes.iter().map(|&n| distance(&moved[representatives[i]], candidates[n]).abs()))
        })
        .collect();
    let adjusted = supports_stay_close(&distances, &policy.closure_tolerance);
    let supports = if adjusted { moved } else { source.candidate_planes.clone() };
    let lookup: BTreeMap<u32, usize> = source.node_ids.iter().enumerate().map(|(i, &n)| (n, i)).collect();
    let mut rejected = Vec::new();
    let mut points = PointTable::new();
    for owner in &owners {
        let i = lookup[&owner.node];
        let reference = place(mesh, owner.node).ok_or("missing reference node")?;
        let planes: Vec<&PlaneFrame> = owner.surfaces.iter().map(|&s| &supports[representatives[s]]).collect();
        let met = intersection(candidates[i], &planes, precision);
        let q = met.unwrap_or(DVec3::NAN);
        let (movement, total) = (candidates[i].distance(q), q.distance(reference));
        let budget = movement_budget(mesh, source, i);
        match close(
            met.is_some(),
            &scalar(movement),
            &policy.junction_movement_limit,
            &scalar(total),
            &scalar(budget + precision),
        ) {
            Closure::Closed => points.insert(owner.node, point(q)),
            Closure::InconsistentSupports => rejected.push(RejectedVertex {
                source_node: owner.node,
                reason: "inconsistent_supports".into(),
            }),
            Closure::Movement => rejected.push(RejectedVertex {
                source_node: owner.node,
                reason: format!("movement: closure={movement}, total={total}, budget={budget}"),
            }),
        }
    }
    let recovery = recover_holes(
        mesh, source, policy, &regions, &rings, &owners, &representatives, &supports, points,
    );
    let points = recovery.points;
    let nodes: Vec<u32> = owners.iter().map(|o| o.node).filter(|&n| points.get(n).is_some()).collect();
    let closed: Vec<_> = nodes.iter().filter_map(|&n| points.get(n)).collect();
    let movements =
        scalars(nodes.iter().zip(&closed).map(|(n, p)| vector(p).distance(candidates[lookup[n]])));
    let mut build = SurfaceBuild::start(model, nodes, &closed)?;
    for (i, reason) in unbounded {
        build.leave_out(&regions[i], reason);
    }
    for RegionRings { region, loops } in rings {
        let region = &regions[region];
        let plane = supports[representatives[region.patch]];
        let places: Vec<Vec<DVec3>> = loops
            .iter()
            .map(|r| r.iter().map(|&n| points.get(n).map_or(DVec3::NAN, |p| vector(&p))).collect())
            .collect();
        let degenerate = places.iter().skip(1).any(|r| ring_area(&plane, r) <= precision * precision);
        let measures = measure_rings(&plane, &places, precision);
        build.add_region(region, loops, plane, measures, degenerate);
    }
    let axes = assemble_axes(mesh, source, &mut build, &supports, &representatives, policy)?;
    Ok(assembly::Report::new(
        policy,
        build,
        axes,
        splits,
        recovery.reports,
        Vec::new(),
        &movements,
        rejected,
        representatives,
        adjusted,
    ))
}

type Contours = Vec<Vec<[f64; 2]>>;

fn contours(surface: &Surface) -> Contours {
    surface.contours.iter().map(|r| r.iter().map(|p| [number(p[0]), number(p[1])]).collect()).collect()
}

fn material(contours: &Contours) -> Polygon<f64> {
    let ring = |r: &Vec<[f64; 2]>| {
        LineString::from(r.iter().chain(r.first()).map(|p| (p[0], p[1])).collect::<Vec<_>>())
    };
    Polygon::new(ring(&contours[0]), contours[1..].iter().map(ring).collect())
}

fn location(uv: [f64; 2], contours: &Contours, precision: f64) -> Option<Location> {
    let p = DVec2::from_array(uv);
    for ring in contours {
        for i in 0..ring.len() {
            let a = DVec2::from_array(ring[i]);
            let d = DVec2::from_array(ring[(i + 1) % ring.len()]) - a;
            let q = a + d * ((p - a).dot(d) / d.length_squared()).clamp(0., 1.);
            if p.distance(q) <= precision {
                return Some(Location::Boundary);
            }
        }
    }
    material(contours).contains(&PlanPoint::new(p.x, p.y)).then_some(Location::Interior)
}

/// Clips a coplanar axis to the material of a surface.
fn intervals(a: [f64; 2], b: [f64; 2], contours: &Contours, precision: f64) -> Vec<Interval> {
    let (a, b) = (DVec2::from_array(a), DVec2::from_array(b));
    let d = b - a;
    let length = d.length();
    if !(length > precision) {
        return Vec::new();
    }
    let line = Line::new((a.x, a.y), (b.x, b.y));
    let parameter = |x: Coord<f64>| ((DVec2::new(x.x, x.y) - a).dot(d) / d.length_squared()).clamp(0., 1.);
    let mut cuts = vec![0., 1.];
    for ring in contours {
        for i in 0..ring.len() {
            let (p, q) = (ring[i], ring[(i + 1) % ring.len()]);
            match line_intersection(line, Line::new((p[0], p[1]), (q[0], q[1]))) {
                Some(LineIntersection::SinglePoint { intersection, .. }) => cuts.push(parameter(intersection)),
                Some(LineIntersection::Collinear { intersection }) => {
                    cuts.push(parameter(intersection.start));
                    cuts.push(parameter(intersection.end));
                }
                None => {}
            }
        }
    }
    cuts.sort_by(f64::total_cmp);
    cuts.dedup_by(|a, b| (*a - *b).abs() * length <= precision);
    let kinds = cuts
        .windows(2)
        .map(|w| location((a + d * ((w[0] + w[1]) / 2.)).to_array(), contours, precision))
        .collect();
    merge_intervals(&scalars(cuts), &kinds)
}

struct Setting<'a> {
    mesh: &'a MeshData,
    source: &'a frame::Report,
    supports: &'a [PlaneFrame],
    joints: &'a Vec<Joint>,
    locked: BTreeMap<u32, DVec3>,
    policy: &'a assembly::Policy,
}

impl Setting<'_> {
    fn planes_at(&self, node: u32) -> Vec<&PlaneFrame> {
        find_joint(self.joints, node)
            .map(|j| self.joints[j].planes.iter().map(|&p| &self.supports[p]).collect())
            .unwrap_or_default()
    }

    /// The direction of an axis, and how long its outermost fixed span is.
    fn direction(&self, reference: DVec3, raw: DVec3, short: bool) -> DVec3 {
        let up = vector(&self.source.policy.up).normalize();
        let angle = number(self.source.policy.angle);
        let limits = AngleLimits { cosine: scalar(angle.cos()), sine: scalar(angle.sin()) };
        let cosine = reference.normalize().dot(up).abs();
        if short {
            reference.normalize()
        } else {
            match lean(&scalar(cosine), &limits) {
                Direction::Vertical => up * reference.dot(up).signum(),
                Direction::Horizontal => (raw - up * raw.dot(up)).normalize_or_zero(),
                Direction::Inclined => raw.normalize(),
            }
        }
    }

    fn measure(&self, axis: &frame::Axis, order: &[usize], nodes: &Vec<u32>) -> (AxisMeasure, [DVec3; 2]) {
        let precision = number(self.policy.precision);
        let ids = &self.source.node_ids;
        let ends = axis.endpoints.map(|i| ids[i]);
        let source_ends = ends.map(|n| place(self.mesh, n).unwrap_or(DVec3::NAN));
        let reference = source_ends[1] - source_ends[0];
        let candidate = |i: usize| vector(&self.source.candidate_points[i]);
        let (ca, cb) = (candidate(axis.endpoints[0]), candidate(axis.endpoints[1]));
        let short = reference.length() < number(self.source.policy.minimum_length);
        let fixed: Vec<(usize, DVec3)> =
            nodes.iter().enumerate().filter_map(|(k, n)| self.locked.get(n).map(|&p| (k, p))).collect();
        let raw = if fixed.len() >= 2 { fixed[fixed.len() - 1].1 - fixed[0].1 } else { cb - ca };
        let direction = self.direction(reference, raw, short);
        let direction_kept = !(direction.length_squared() < 0.5
            || direction.dot(reference.normalize()) < number(self.source.policy.angle).cos());
        let mut origin = fixed.first().map_or((ca + cb) * 0.5, |f| f.1);
        let mut line_met = true;
        if fixed.is_empty() {
            let parallel: Vec<&PlaneFrame> = common_planes(self.joints, nodes)
                .iter()
                .map(|&i| &self.supports[i])
                .filter(|p| vector(&p.normal).dot(direction).abs() <= 1e-10)
                .collect();
            match intersection(origin, &parallel, precision) {
                Some(p) => origin = p,
                None => line_met = false,
            }
        }
        let mut anchors = Vec::new();
        for (k, &node) in nodes.iter().enumerate() {
            let anchor = &axis.anchors[order[k]];
            let here = candidate(anchor.node);
            let owned = self.planes_at(node);
            let along = if short {
                let (base, t) = fixed
                    .first()
                    .map_or(((ca + cb) * 0.5, 0.5), |&(f, p)| (p, number(axis.anchors[order[f]].t)));
                base + reference * (number(anchor.t) - t)
            } else {
                origin + direction * (here - origin).dot(direction)
            };
            let mut off_axis = 0.0;
            let q = if let Some(&p) = self.locked.get(&node) {
                off_axis = if short { along.distance(p) } else { (p - origin).cross(direction).length() };
                p
            } else if short {
                along
            } else {
                // Interior source nodes slide along the axis onto the first plane
                // that crosses it.
                let t = owned
                    .iter()
                    .map(|f| (vector(&f.normal).dot(direction), f))
                    .find(|(slope, _)| slope.abs() > 1e-10)
                    .map_or((here - origin).dot(direction), |(slope, f)| -distance(f, origin) / slope);
                origin + direction * t
            };
            anchors.push(AnchorMeasure {
                point: point(q),
                off_axis: scalar(off_axis),
                from_supports: scalars(owned.iter().map(|f| distance(f, q).abs())),
                from_source: scalar(q.distance(place(self.mesh, node).unwrap_or(DVec3::NAN))),
                allowance: scalar(movement_budget(self.mesh, self.source, anchor.node) + precision),
                from_candidate: scalar(q.distance(here)),
                parameter: scalar(0.0),
                deviation: scalar(0.0),
            });
        }
        let at = |node: u32| {
            let k = nodes.iter().rposition(|n| *n == node);
            k.map_or(DVec3::NAN, |k| vector(&anchors[k].point))
        };
        let (a, b) = (at(ends[0]), at(ends[1]));
        let d = b - a;
        let length = d.length();
        let parameters: Vec<f64> = anchors
            .iter()
            .map(|m| (vector(&m.point) - a).dot(d) / d.length_squared())
            .collect();
        for (m, t) in anchors.iter_mut().zip(&parameters) {
            m.parameter = scalar(*t);
            m.deviation = scalar((vector(&m.point) - a).cross(d / length).length());
        }
        let measure = AxisMeasure {
            reference_length: scalar(reference.length()),
            span_length: scalar(raw.length()),
            direction_kept,
            line_met,
            anchors,
            padded_length: scalar(length + precision),
            advance: scalar(d.dot(reference)),
            gaps: scalars(parameters.windows(2).map(|w| (w[1] - w[0]) * length)),
        };
        (measure, [a, b])
    }
}

/// Adds the axes of a frame to the surfaces that were built.
fn assemble_axes(
    mesh: &MeshData,
    source: &frame::Report,
    build: &mut SurfaceBuild,
    supports: &[PlaneFrame],
    representatives: &Vec<usize>,
    policy: &assembly::Policy,
) -> Result<(Model, Vec<u32>, bars::Report), &'static str> {
    let precision = number(policy.precision);
    let spare = Model::new(policy.precision, policy.minimum_edge).map_err(|_| "invalid assembly policy")?;
    let model = std::mem::replace(&mut build.model, spare);
    let known = joints(mesh, source, model.surfaces(), representatives);
    let lookup: BTreeMap<u32, usize> = source.node_ids.iter().enumerate().map(|(i, &n)| (n, i)).collect();
    let shapes: Vec<(PlaneFrame, Contours)> =
        model.surfaces().iter().map(|s| (model.planes()[s.plane], contours(s))).collect();
    let mut axes = AxisBuild::new(model, build.vertex_source_nodes.clone());
    let states: Vec<JointState> = known
        .iter()
        .map(|joint| {
            let candidate = source.candidate_points[lookup[&joint.node]];
            let planes: Vec<&PlaneFrame> = joint.planes.iter().map(|&p| &supports[p]).collect();
            let met = intersection(vector(&candidate), &planes, precision).map(point);
            joint_state(joint, axes.place_of(joint.node), met, candidate)
        })
        .collect();
    let locked =
        known.iter().zip(&states).filter_map(|(j, s)| s.lock.map(|p| (j.node, vector(&p)))).collect();
    let setting = Setting { mesh, source, supports, joints: &known, locked, policy };
    for (i, axis) in source.axes.iter().enumerate() {
        let (order, nodes) = ordered_anchors(axis, &source.node_ids);
        let (measure, [a, b]) = setting.measure(axis, &order, &nodes);
        let placements = nodes
            .iter()
            .zip(&measure.anchors)
            .map(|(&n, m)| {
                surfaces_at_node(&known, n)
                    .into_iter()
                    .map(|s| {
                        let (plane, shape) = &shapes[s];
                        let p = vector(&m.point);
                        Placement {
                            distance: scalar(distance(plane, p).abs()),
                            location: location(project(plane, p), shape, precision),
                        }
                    })
                    .collect()
            })
            .collect();
        let stretches = touched_surfaces(&nodes, &known)
            .into_iter()
            .map(|s| {
                let (plane, shape) = &shapes[s];
                Stretch {
                    start_offset: scalar(distance(plane, a).abs()),
                    end_offset: scalar(distance(plane, b).abs()),
                    intervals: intervals(project(plane, a), project(plane, b), shape, precision),
                }
            })
            .collect();
        let trial = AxisTrial { order, nodes, measure, placements, stretches };
        axes.add_axis(source, i, &trial, &known, &states, policy);
    }
    Ok(axes.conclude(&known, &states))
}

fn extent(points: &[DVec3]) -> (f64, f64) {
    let mut ends = (DVec3::ZERO, DVec3::ZERO);
    let mut length = 0.0_f64;
    for &a in points {
        for &b in points {
            if a.distance(b) > length {
                length = a.distance(b);
                ends = (a, b);
            }
        }
    }
    if length == 0. {
        return (0., 0.);
    }
    let direction = (ends.1 - ends.0) / length;
    let width = points
        .iter()
        .map(|&p| {
            let t = (p - ends.0).dot(direction).clamp(0., length);
            p.distance(ends.0 + t * direction)
        })
        .fold(0.0, f64::max);
    (length, width)
}

/// Takes collapsed openings out of the rings of a region.
fn simplify(
    mesh: &MeshData,
    points: &PointTable,
    plane: &PlaneFrame,
    loops: &[Vec<u32>],
    region: &Region,
    precision: f64,
    policy: &FeaturePolicy,
) -> Simplification {
    let mut result = Simplification::new(&loops[0]);
    let exterior = source_points(mesh, &loops[0]);
    let outer_uv: Vec<[f64; 2]> = exterior.iter().map(|p| project(plane, *p)).collect();
    let outer = polygon(&outer_uv);
    let exterior_area = area(&outer_uv);
    for ring in &loops[1..] {
        let original = source_points(mesh, ring);
        let candidate: Vec<DVec3> =
            ring.iter().map(|&n| points.get(n).map_or(DVec3::NAN, |p| vector(&p))).collect();
        let (_, source_width) = extent(&original);
        let (long, candidate_width) = extent(&candidate);
        let uv: Vec<[f64; 2]> = original.iter().map(|p| project(plane, *p)).collect();
        let hole = polygon(&uv);
        let filled: f64 = result.removed.iter().map(|h| number(h.source_area)).sum();
        let measure = HoleMeasure {
            source_valid: is_simple(&outer_uv, precision)
                && is_simple(&uv, precision)
                && outer.contains(&hole)
                && !outer.exterior().intersects(hole.exterior()),
            source_area: scalar(area(&uv)),
            source_width: scalar(source_width),
            candidate_area: scalar(ring_area(plane, &candidate)),
            candidate_width: scalar(candidate_width),
            threshold: scalar(precision * long.max(precision)),
            exterior_area: scalar(exterior_area),
            filled_area: scalar(filled + area(&uv)),
            fillable_area: scalar(number(policy.maximum_filled_area_ratio) * exterior_area),
        };
        result.consider(ring, &measure, &scalar(precision), policy, region.patch, &region.elements);
    }
    result
}

fn element(id: u32, elem_type: u32, stiff_id: u32, nodes: Vec<u32>) -> ElementData {
    ElementData { id, elem_type, stiff_id, nodes }
}

fn insert(mesh: &mut MeshData, id: u32, p: [f64; 3]) {
    mesh.nodes.insert(id, point(DVec3::from_array(p)));
}

fn source(mesh: &MeshData, id: u32) -> DVec3 {
    vector(&mesh.nodes.get(id).unwrap())
}

/// A mesh with its nodes and elements renumbered and its nodes moved.
fn moved(
    mesh: &MeshData,
    node: impl Fn(u32) -> u32,
    id: impl Fn(u32) -> u32,
    map: impl Fn(DVec3) -> DVec3,
) -> MeshData {
    let mut result = MeshData::default();
    for n in mesh.nodes.ids() {
        result.nodes.insert(node(n), point(map(source(mesh, n))));
    }
    for e in &mesh.elements {
        let nodes = e.nodes.iter().map(|&n| node(n)).collect();
        result.elements.push(element(id(e.id), e.elem_type, e.stiff_id, nodes));
    }
    result
}

fn bar_mesh(points: &[[f64; 3]], ends: &[[u32; 2]]) -> MeshData {
    let mut mesh = MeshData::default();
    for (i, p) in points.iter().enumerate() {
        insert(&mut mesh, i as u32 + 1, *p);
    }
    for (i, n) in ends.iter().enumerate() {
        mesh.elements.push(element(i as u32 + 1, 10, i as u32 + 1, n.to_vec()));
    }
    mesh
}

fn axis_policy() -> recognize::Policy {
    recognize::Policy { angle: scalar(0.02), line_tolerance: scalar(0.01), numerical_precision: scalar(1e-8) }
}

fn plane_policy() -> planes::Policy {
    planes::Policy { angle: scalar(0.02), distance: scalar(0.01), precision: scalar(1e-8) }
}

#[test]
fn branch_and_properties_do_not_split_straight_axis() {
    let m = bar_mesh(
        &[[0., 0., 0.], [1., 0., 0.], [2., 0., 0.], [1., 1., 0.]],
        &[[1, 2], [2, 3], [2, 4]],
    );
    let r = axes(&m, &axis_policy()).unwrap();
    assert_eq!(r.axes.len(), 2);
    let a = r.axes.iter().find(|a| a.spans.len() == 2).unwrap();
    assert_eq!(a.endpoint_nodes, [1, 3]);
    assert_eq!(a.spans[0].stiffness, 1);
    assert_eq!(a.spans[1].stiffness, 2);
    assert_eq!(a.anchors[1].incident_elements, vec![1, 2, 3]);
    assert_eq!(number(a.anchors[1].t), 0.5);
}

#[test]
fn ambiguous_branch_is_not_arbitrarily_chosen() {
    let m = bar_mesh(
        &[[0., 0., 0.], [1., 0., 0.], [2., 0., 0.], [2., 0.001, 0.]],
        &[[1, 2], [2, 3], [2, 4]],
    );
    assert_eq!(axes(&m, &axis_policy()).unwrap().axes.len(), 3);
}

#[test]
fn cumulative_curvature_is_not_hidden_by_small_local_angles() {
    let points: Vec<_> = (0..30)
        .map(|i| {
            let t = i as f64 * 0.01;
            [t.sin() * 10., (1. - t.cos()) * 10., 0.]
        })
        .collect();
    let ends: Vec<_> = (1..30).map(|i| [i, i + 1]).collect();
    let r = axes(&bar_mesh(&points, &ends), &axis_policy()).unwrap();
    assert!(r.axes.len() > 1);
    let spans: BTreeSet<_> = r.axes.iter().flat_map(|a| a.spans.iter().map(|s| s.element)).collect();
    assert_eq!(spans.len(), 29);
    assert_eq!(r.axes.iter().map(|a| a.spans.len()).sum::<usize>(), 29);
    assert!(r
        .axes
        .iter()
        .all(|a| a.anchors.iter().all(|n| number(n.distance_to_axis) <= number(axis_policy().line_tolerance))));
    assert_eq!(r.unmerged_components.len(), 1);
}

#[test]
fn failed_whole_path_retains_straight_subpaths_and_short_property_span() {
    let points = [
        [0., 0., 0.],
        [1., 0., 0.],
        [1.006, 0., 0.],
        [2., 0., 0.],
        [3., 0.015, 0.],
        [4., 0.045, 0.],
    ];
    let ends = [[1, 2], [2, 3], [3, 4], [4, 5], [5, 6]];
    let original = bar_mesh(&points, &ends);
    let baseline = axes(&original, &axis_policy()).unwrap();
    assert_eq!(baseline.unmerged_components.len(), 1);
    let merged = baseline.axes.iter().find(|a| a.spans.iter().any(|s| s.element == 2)).unwrap();
    assert!(merged.spans.len() >= 3);
    assert_eq!(merged.spans.iter().find(|s| s.element == 2).unwrap().stiffness, 2);
    let groups = |r: &recognize::Report, offset: u32| -> BTreeSet<BTreeSet<u32>> {
        r.axes.iter().map(|a| a.spans.iter().map(|s| s.element - offset).collect()).collect()
    };
    for angle in [0.6, 3.0] {
        let rotation = DQuat::from_axis_angle(DVec3::new(1., 2., 3.).normalize(), angle);
        let mut m = moved(&original, |n| n + 100, |e| e + 200, |p| rotation * p + DVec3::new(20., 30., 40.));
        m.elements.reverse();
        for e in &mut m.elements {
            e.nodes.reverse();
        }
        let r = axes(&m, &axis_policy()).unwrap();
        assert_eq!(groups(&baseline, 0), groups(&r, 200));
        assert_eq!(r.axes.iter().map(|a| a.spans.len()).sum::<usize>(), 5);
    }
}

#[test]
fn invalid_source_is_accounted_for() {
    let m = bar_mesh(&[[0., 0., 0.], [1., 0., 0.]], &[[1, 2], [1, 1], [2, 9]]);
    let r = axes(&m, &axis_policy()).unwrap();
    assert_eq!(r.axes.len(), 1);
    assert_eq!(r.rejected.len(), 2);
}

#[test]
fn input_order_does_not_change_recognition() {
    let mut m = bar_mesh(&[[0., 0., 0.], [1., 0., 0.], [2., 0., 0.]], &[[1, 2], [2, 3]]);
    let a = format!("{:?}", axes(&m, &axis_policy()).unwrap());
    m.elements.reverse();
    assert_eq!(a, format!("{:?}", axes(&m, &axis_policy()).unwrap()));
}

#[test]
fn rejected_elements_name_their_reason() {
    let mut m = bar_mesh(&[[0., 0., 0.], [1., 0., 0.]], &[[1, 2], [1, 1], [2, 9]]);
    m.elements.push(element(9, 44, 1, vec![1, 2, 3]));
    let r = axes(&m, &axis_policy()).unwrap();
    assert_eq!(r.rejected[0].element, 2);
    assert_eq!(r.rejected[0].reason, "degenerate_element");
    assert_eq!(r.rejected[1].element, 3);
    assert_eq!(r.rejected[1].reason, "missing_or_nonfinite_node");
    assert_eq!(r.non_bar_elements, vec![9]);
    m.elements[1].id = 1;
    assert_eq!(axes(&m, &axis_policy()).unwrap_err(), "duplicate source element ID");
    let mut wide = axis_policy();
    wide.angle = scalar(1.0);
    assert_eq!(axes(&m, &wide).unwrap_err(), "invalid recognition policy");
}

#[test]
fn closed_ring_of_bars_is_kept_bar_by_bar() {
    // Sixteen bars turn by less than half a radian at each node.
    let count = 16;
    let points: Vec<_> = (0..count)
        .map(|i| {
            let t = i as f64 * std::f64::consts::TAU / count as f64;
            [10. * t.cos(), 10. * t.sin(), 0.]
        })
        .collect();
    let ends: Vec<_> = (0..count as u32).map(|i| [i + 1, (i + 1) % count as u32 + 1]).collect();
    let mut policy = axis_policy();
    policy.angle = scalar(0.5);
    let r = axes(&bar_mesh(&points, &ends), &policy).unwrap();
    assert_eq!(r.axes.len(), 16);
    assert!(r.axes.iter().all(|a| a.spans.len() == 1));
    assert_eq!(r.unmerged_components, vec![(1..=16).collect::<Vec<u32>>()]);
}

fn slab() -> MeshData {
    let mut mesh = MeshData::default();
    let points =
        [[0., 0., 0.], [1., 0., 0.], [0., 1., 0.], [1., 1., 0.], [2., 0., 0.], [2., 1., 0.]];
    for (i, p) in points.iter().enumerate() {
        insert(&mut mesh, i as u32 + 1, *p);
    }
    mesh.elements.push(element(1, 44, 1, vec![1, 2, 3, 4]));
    mesh.elements.push(element(2, 44, 2, vec![2, 5, 4, 6]));
    mesh
}

#[test]
fn shared_plane_preserves_property_regions() {
    let r = patches(&slab(), &plane_policy()).unwrap();
    assert_eq!(r.patches.len(), 1);
    assert_eq!(r.patches[0].stiffness_regions.len(), 2);
    assert_eq!(r.patches[0].source_elements, vec![1, 2]);
}

#[test]
fn disconnected_close_planes_are_separate() {
    let mut m = slab();
    m.elements[1].nodes = vec![7, 8, 9, 10];
    for (id, p) in
        [(7, [0., 0., 0.005]), (8, [1., 0., 0.005]), (9, [0., 1., 0.005]), (10, [1., 1., 0.005])]
    {
        insert(&mut m, id, p);
    }
    assert_eq!(patches(&m, &plane_policy()).unwrap().patches.len(), 2);
}

#[test]
fn folded_surface_is_not_flattened() {
    let mut m = slab();
    insert(&mut m, 5, [1., 0., 1.]);
    insert(&mut m, 6, [1., 1., 1.]);
    assert_eq!(patches(&m, &plane_policy()).unwrap().patches.len(), 2);
}

#[test]
fn warped_and_missing_nodes_are_reported() {
    let full = slab();
    let mut m = MeshData::default();
    for n in 1..=5 {
        m.nodes.insert(n, full.nodes.get(n).unwrap());
    }
    insert(&mut m, 1, [0., 0., 0.5]);
    m.elements = full.elements;
    let r = patches(&m, &plane_policy()).unwrap();
    assert_eq!(r.rejected.len(), 2);
    assert!(r.patches.is_empty());
}

#[test]
fn gradual_curvature_does_not_chain_into_one_plane() {
    let mut m = MeshData::default();
    for i in 0..30_u32 {
        let t = i as f64 * 0.01;
        for j in 0..2_u32 {
            insert(&mut m, i * 2 + j + 1, [t.sin() * 10., j as f64, (1. - t.cos()) * 10.]);
        }
    }
    for i in 0..29_u32 {
        m.elements.push(element(i + 1, 44, 1, vec![i * 2 + 1, i * 2 + 3, i * 2 + 2, i * 2 + 4]));
    }
    let r = patches(&m, &plane_policy()).unwrap();
    assert_eq!(r.patches.len(), 29);
    assert_eq!(r.unmerged_components.len(), 1);
    assert!(r.rejected.is_empty());
}

#[test]
fn numbering_order_does_not_change_membership() {
    let mut m = slab();
    let a = patches(&m, &plane_policy()).unwrap();
    m.elements.reverse();
    let b = patches(&m, &plane_policy()).unwrap();
    assert_eq!(a.patches[0].source_elements, b.patches[0].source_elements);
}

#[test]
fn shells_name_their_reason() {
    let mut m = slab();
    m.elements.push(element(7, 10, 1, vec![1, 2]));
    m.elements.push(element(8, 44, 1, vec![1, 2, 2, 3]));
    let r = patches(&m, &plane_policy()).unwrap();
    assert_eq!(r.non_shell_elements, vec![7]);
    assert_eq!(r.rejected[0].element, 8);
    assert_eq!(r.rejected[0].reason, "invalid_degenerate_or_excessively_warped_shell");
    m.elements[1].id = 1;
    assert_eq!(patches(&m, &plane_policy()).unwrap_err(), "duplicate source element ID");
    let mut policy = plane_policy();
    policy.distance = scalar(0.0);
    assert_eq!(patches(&m, &policy).unwrap_err(), "invalid plane policy");
}

fn leaning() -> MeshData {
    let points =
        [[0., 0., 0.02], [1., 0., 0.025], [2., 0., 0.03], [1.01, 0., 2.], [0., 2., 0.02]];
    let mut mesh = bar_mesh(&points, &[[1, 2], [2, 3], [2, 4]]);
    mesh.elements.push(element(4, 42, 4, vec![1, 3, 5]));
    mesh
}

fn frame_policy() -> frame::Policy {
    frame::Policy {
        up: point(DVec3::Z),
        angle: scalar(0.02),
        maximum_movement: scalar(0.15),
        relative_movement: scalar(0.05),
        minimum_length: scalar(0.03),
        residual_tolerance: scalar(1e-8),
        iterations: 2000,
    }
}

fn run_frame(m: &MeshData, p: &frame::Policy) -> frame::Report {
    let a = axes(m, &axis_policy()).unwrap();
    let s = patches(m, &plane_policy()).unwrap();
    solve(m, &a, &s, p).unwrap()
}

#[test]
fn plane_and_axes_share_interior_anchor_after_regularization() {
    let r = run_frame(&leaning(), &frame_policy());
    assert!(r.accepted, "{}", number(r.candidate_max_residual));
    assert_eq!(r.axes.len(), 2);
    for a in &r.axes {
        let x = vector(&r.points[a.endpoints[0]]);
        let y = vector(&r.points[a.endpoints[1]]);
        for c in &a.anchors {
            assert!(vector(&r.points[c.node]).distance(x + number(c.t) * (y - x)) < 2e-8);
        }
    }
    for s in &r.surfaces {
        for &n in &s.nodes {
            assert!(distance(&s.plane, vector(&r.points[n])).abs() < 2e-8);
        }
    }
    let p = vector(&r.points[r.node_ids.iter().position(|n| *n == 2).unwrap()]);
    let q = vector(&r.points[r.node_ids.iter().position(|n| *n == 4).unwrap()]);
    assert!((p[0] - q[0]).abs() < 2e-8 && (p[1] - q[1]).abs() < 2e-8);
}

#[test]
fn failure_returns_original_geometry_not_last_iterate() {
    let mut p = frame_policy();
    p.maximum_movement = scalar(1e-6);
    p.iterations = 100;
    let r = run_frame(&leaning(), &p);
    assert!(!r.accepted);
    assert_eq!(r.points, r.reference_points);
    assert_eq!(number(r.maximum_movement), 0.);
    assert_eq!(r.reason, "movement_budget_exceeded");
}

#[test]
fn rigid_transform_with_up_preserves_a_feasible_solution() {
    let rotation = DQuat::from_axis_angle(DVec3::new(1., 2., 3.).normalize(), 0.6);
    let m = moved(&leaning(), |n| n, |e| e, |p| rotation * p + DVec3::new(20., 30., 40.));
    let mut p = frame_policy();
    p.up = point(rotation * DVec3::Z);
    let r = run_frame(&m, &p);
    assert!(r.accepted);
    assert!(number(r.maximum_movement) < 0.15);
}

#[test]
fn frame_errors_name_what_is_wrong() {
    let m = leaning();
    let s = patches(&m, &plane_policy()).unwrap();
    let a = axes(&m, &axis_policy()).unwrap();
    let mut p = frame_policy();
    p.iterations = 0;
    assert_eq!(solve(&m, &a, &s, &p).unwrap_err(), "invalid frame policy");
    let mut a = axes(&m, &axis_policy()).unwrap();
    a.axes[0].anchors[0].t = scalar(1.5);
    assert_eq!(solve(&m, &a, &s, &frame_policy()).unwrap_err(), "invalid axis anchors");
    a.axes[0].anchors[0].t = scalar(0.0);
    a.axes[0].anchors[0].node = 77;
    assert_eq!(solve(&m, &a, &s, &frame_policy()).unwrap_err(), "missing source node");
    let a = axes(&m, &axis_policy()).unwrap();
    let mut s = patches(&m, &plane_policy()).unwrap();
    s.patches[0].source_nodes.clear();
    assert_eq!(solve(&m, &a, &s, &frame_policy()).unwrap_err(), "empty support plane");
    let mut p = frame_policy();
    p.residual_tolerance = scalar(5.0);
    let s = patches(&m, &plane_policy()).unwrap();
    assert_eq!(solve(&m, &a, &s, &p).unwrap_err(), "source axis shorter than minimum length");
}

#[test]
fn joint_couples_whole_axes_and_all_incident_planes() {
    let entities = vec![
        Entity::Vertex(0),
        Entity::Vertex(1),
        Entity::Vertex(2),
        Entity::Axis(0),
        Entity::Axis(1),
        Entity::Plane(0),
        Entity::Plane(1),
    ];
    let graph = Graph::build(
        entities,
        vec![
            [Entity::Axis(0), Entity::Vertex(0)],
            [Entity::Axis(0), Entity::Vertex(1)],
            [Entity::Axis(1), Entity::Vertex(1)],
            [Entity::Axis(1), Entity::Vertex(2)],
            [Entity::Plane(0), Entity::Vertex(0)],
            [Entity::Plane(1), Entity::Vertex(2)],
        ],
    );
    assert_eq!(graph.components.len(), 1);
    assert_eq!(graph.components[0].axes, vec![0, 1]);
    assert_eq!(graph.components[0].planes, vec![0, 1]);
    assert_eq!(graph.components[0].vertices, vec![0, 1, 2]);
}

#[test]
fn no_proximity_connection_and_order_independent() {
    let entities =
        vec![Entity::Vertex(0), Entity::Vertex(1), Entity::Plane(0), Entity::Plane(1), Entity::Axis(0)];
    let relations =
        vec![[Entity::Plane(0), Entity::Vertex(0)], [Entity::Plane(1), Entity::Vertex(1)]];
    let graph = Graph::build(entities.clone(), relations.clone());
    assert_eq!(graph.components.len(), 3);
    let reversed =
        Graph::build(entities.into_iter().rev().collect(), relations.into_iter().rev().collect());
    assert_eq!(format!("{graph:?}"), format!("{reversed:?}"));
}

#[test]
fn frame_graph_joins_what_shares_a_vertex() {
    let r = run_frame(&leaning(), &frame_policy());
    let graph = Graph::from_frame(&r);
    assert_eq!(graph.components.len(), 1);
    assert_eq!(graph.components[0].axes, vec![0, 1]);
    assert_eq!(graph.components[0].planes, vec![0]);
    assert_eq!(graph.components[0].vertices, vec![0, 1, 2, 3, 4]);
}

fn planar_frame(mesh: &MeshData, up: DVec3) -> frame::Report {
    let mut p = frame_policy();
    p.up = point(up);
    p.residual_tolerance = scalar(1e-7);
    p.iterations = 100;
    run_frame(mesh, &p)
}

fn scaled_policy(scale: f64) -> assembly::Policy {
    assembly::Policy {
        closure_tolerance: scalar(0.001 * scale),
        junction_movement_limit: scalar(0.05 * scale),
        precision: scalar(1e-7 * scale),
        minimum_edge: scalar(0.001 * scale),
    }
}

fn set_candidate(f: &mut frame::Report, node: u32, p: DVec3) {
    let i = f.node_ids.iter().position(|&n| n == node).unwrap();
    f.candidate_points[i] = point(p);
}

fn candidate(f: &frame::Report, node: u32) -> DVec3 {
    vector(&f.candidate_points[f.node_ids.iter().position(|&n| n == node).unwrap()])
}

fn faces(mesh: &MeshData, normal: DVec3, precision: f64) -> Vec<Face> {
    mesh.elements
        .iter()
        .map(|e| Face { id: e.id, nodes: ordered_facet_nodes(mesh, e, normal, precision).unwrap() })
        .collect()
}

#[test]
fn pinched_opening_is_partitioned_without_filling_or_duplicate_sources() {
    let policy = scaled_policy(1.);
    let mut mesh = MeshData::default();
    for y in 0..4 {
        for x in 0..4 {
            insert(&mut mesh, 1 + x + 4 * y, [x as f64, y as f64, 0.]);
        }
    }
    for y in 0..3 {
        for x in 0..3 {
            // An interior void touches the exterior at just one vertex.
            if (x == 0 && y == 0) || (x == 1 && y == 1) {
                continue;
            }
            let a = 1 + x + 4 * y;
            let id = mesh.elements.len() as u32 + 1;
            mesh.elements.push(element(id, 44, 9, vec![a, a + 1, a + 4, a + 5]));
        }
    }
    let f = planar_frame(&mesh, DVec3::Z);
    let ids: Vec<_> = mesh.elements.iter().map(|e| e.id).collect();
    let all = faces(&mesh, vector(&f.candidate_planes[0].normal), 1e-7);
    assert_eq!(boundary(&all), Err("ambiguous_boundary"));
    let base = assemble(&mesh, &f, &policy).unwrap();
    assert!(base.all_surface_patches_built, "{:?}", base.issues);
    assert_eq!(base.pinched_region_splits.len(), 1);
    assert!(base.preview.surfaces().len() > 1);
    let mut sources: Vec<_> =
        base.preview.surfaces().iter().flat_map(|s| s.source_elements.iter().copied()).collect();
    sources.sort_unstable();
    assert_eq!(sources, ids);
    let total: f64 = base
        .preview
        .surfaces()
        .iter()
        .flat_map(|s| contours(s).into_iter().enumerate())
        .map(|(j, r)| if j == 0 { area(&r) } else { -area(&r) })
        .sum();
    assert!((total - 7.).abs() < 1e-9);
    assert_eq!(base.vertex_source_nodes.iter().filter(|&&n| n == 6).count(), 1);
    let mut uses = BTreeMap::<usize, usize>::new();
    for e in base.preview.surfaces().iter().flat_map(|s| s.boundaries.iter().flatten()) {
        *uses.entry(e.edge).or_default() += 1;
    }
    assert!(uses.values().any(|&n| n == 2));
    assert!(base.surface_stiffness.iter().all(|&s| s == 9));
    // The same after a rigid transform with reversed numbering.
    let q = DQuat::from_axis_angle(DVec3::new(1., 2., 3.).normalize(), 0.6);
    let shift = DVec3::new(30., -40., 70.);
    let mut other = moved(&mesh, |n| 100 - n, |e| 100 - e, |p| q * p + shift);
    other.elements.reverse();
    for e in &mut other.elements {
        e.nodes.reverse();
    }
    let transformed = assemble(&other, &planar_frame(&other, q * DVec3::Z), &policy).unwrap();
    assert!(transformed.all_surface_patches_built);
    let groups = |r: &assembly::Report, reverse: bool| -> BTreeSet<Vec<u32>> {
        r.preview
            .surfaces()
            .iter()
            .map(|s| {
                let mut ids: Vec<_> =
                    s.source_elements.iter().map(|&n| if reverse { 100 - n } else { n }).collect();
                ids.sort_unstable();
                ids
            })
            .collect()
    };
    assert_eq!(groups(&base, false), groups(&transformed, true));
    for (&n, p) in base.vertex_source_nodes.iter().zip(base.preview.vertices()) {
        let k = transformed.vertex_source_nodes.iter().position(|&v| v == 100 - n).unwrap();
        assert!(vector(&transformed.preview.vertices()[k]).distance(q * vector(p) + shift) < 1e-7);
    }
}

fn annulus(triangle: bool) -> MeshData {
    let (outer, inner) = if triangle {
        (
            vec![[-2., -2., 0.], [2., -2., 0.], [0., 2., 0.]],
            vec![[-0.005, 0., 0.], [0.005, 0., 0.], [0., 0.5, 0.]],
        )
    } else {
        (
            vec![[-2., -2., 0.], [2., -2., 0.], [2., 2., 0.], [-2., 2., 0.]],
            vec![[-0.005, -0.2, 0.], [0.005, -0.2, 0.], [0.005, 0.2, 0.], [-0.005, 0.2, 0.]],
        )
    };
    let n = outer.len() as u32;
    let mut mesh = MeshData::default();
    for (i, p) in outer.into_iter().chain(inner).enumerate() {
        insert(&mut mesh, i as u32 + 1, p);
    }
    for i in 0..n {
        mesh.elements.push(element(i + 1, 44, 9, vec![i + 1, (i + 1) % n + 1, (i + 1) % n + n + 1, i + n + 1]));
    }
    mesh
}

#[test]
fn holes_restore_across_shapes_scales_rotations_and_renumbering() {
    for triangle in [true, false] {
        for scale in [0.1, 1., 10.] {
            for transformed in [false, true] {
                let base = annulus(triangle);
                let count = if triangle { 3 } else { 4 };
                let rotation = if transformed {
                    DQuat::from_axis_angle(DVec3::new(1., 2., 3.).normalize(), 0.71)
                } else {
                    DQuat::IDENTITY
                };
                let shift = DVec3::new(17., -29., 51.);
                let name = |n: u32| if transformed { 100 - n } else { n };
                let mut mesh = moved(&base, name, name, |p| rotation * (p * scale) + shift);
                for e in &mut mesh.elements {
                    e.nodes.reverse();
                }
                if transformed {
                    mesh.elements.reverse();
                }
                let mut f = planar_frame(&mesh, rotation * DVec3::Z);
                for n in count + 1..=2 * count {
                    let mut p = source(&base, n);
                    p.x = 0.;
                    set_candidate(&mut f, name(n), rotation * (p * scale) + shift);
                }
                let policy = scaled_policy(scale);
                let result = assemble(&mesh, &f, &policy).unwrap();
                assert!(result.all_surface_patches_built, "{:?}", result.issues);
                assert_eq!(result.hole_recovery.len(), 1);
                assert_eq!(result.hole_recovery[0].outcome, HoleOutcome::Restored);
                assert_eq!(result.preview.surfaces().len(), 1);
                assert_eq!(result.preview.surfaces()[0].contours.len(), 2);
                assert_eq!(result.surface_stiffness, vec![9]);
                assert_eq!(result.preview.surfaces()[0].source_elements.len(), count as usize);
                for n in count + 1..=2 * count {
                    let i = result.vertex_source_nodes.iter().position(|&i| i == name(n)).unwrap();
                    assert!(
                        vector(&result.preview.vertices()[i]).distance(source(&mesh, name(n)))
                            < number(policy.precision)
                    );
                }
                assert!(
                    number(result.maximum_closure_movement) <= number(policy.junction_movement_limit)
                );
                // Assembling again gives the same and leaves the input intact.
                let again = assemble(&mesh, &f, &policy).unwrap();
                assert_eq!(format!("{result:?}"), format!("{again:?}"));
            }
        }
    }
}

#[test]
fn multiple_holes_in_one_region_restore_together() {
    let mut mesh = MeshData::default();
    for y in 0..4 {
        for x in 0..6 {
            insert(&mut mesh, 1 + x + 6 * y, [x as f64 * 0.01, y as f64 * 0.01, 0.]);
        }
    }
    for y in 0..3 {
        for x in 0..5 {
            if y == 1 && (x == 1 || x == 3) {
                continue;
            }
            let a = 1 + x + 6 * y;
            let id = mesh.elements.len() as u32 + 1;
            mesh.elements.push(element(id, 44, 9, vec![a, a + 1, a + 7, a + 6]));
        }
    }
    let mut f = planar_frame(&mesh, DVec3::Z);
    for n in f.node_ids.clone() {
        if (8..=11).contains(&n) || (14..=17).contains(&n) {
            let mut p = candidate(&f, n);
            p.x = if source(&mesh, n).x < 0.025 { 0.015 } else { 0.035 };
            set_candidate(&mut f, n, p);
        }
    }
    let result = assemble(&mesh, &f, &scaled_policy(1.)).unwrap();
    assert!(result.all_surface_patches_built, "{:?}", result.issues);
    assert_eq!(result.hole_recovery.len(), 1);
    assert_eq!(result.hole_recovery[0].outcome, HoleOutcome::Restored);
    assert_eq!(result.hole_recovery[0].constraints.len(), 2);
    assert_eq!(result.preview.surfaces()[0].contours.len(), 3);
    assert_eq!(result.preview.surfaces()[0].source_elements.len(), 13);
}

#[test]
fn blocked_axis_hole_does_not_prevent_independent_recovery() {
    let mut mesh = annulus(true);
    let second = annulus(false);
    for n in second.nodes.ids() {
        let p = source(&second, n) + DVec3::X * 10.;
        mesh.nodes.insert(n + 20, point(p));
    }
    for e in second.elements {
        let nodes = e.nodes.iter().map(|n| n + 20).collect();
        mesh.elements.push(element(e.id + 20, e.elem_type, e.stiff_id, nodes));
    }
    let mut f = planar_frame(&mesh, DVec3::Z);
    for n in f.node_ids.clone() {
        let mut p = candidate(&f, n);
        if (4..=6).contains(&n) {
            p.x = 0.;
        }
        if (25..=28).contains(&n) {
            p.x = 10.;
        }
        set_candidate(&mut f, n, p);
    }
    let anchor = f.node_ids.iter().position(|&n| n == 4).unwrap();
    let end = f.node_ids.iter().position(|&n| n == 1).unwrap();
    f.axes.push(frame::Axis {
        endpoints: [anchor, end],
        anchors: vec![frame::Anchor { node: anchor, t: scalar(0.) }],
        spans: vec![],
    });
    let policy = scaled_policy(1.);
    let result = assemble(&mesh, &f, &policy).unwrap();
    assert_eq!(result.hole_recovery.len(), 2);
    let blocked = result.hole_recovery.iter().find(|r| r.source_elements.contains(&1)).unwrap();
    assert_eq!(blocked.outcome, HoleOutcome::AxisAnchorRequiresJointRepair);
    assert!(blocked.changes.is_empty());
    assert!(result.hole_recovery.iter().any(|r| r.outcome == HoleOutcome::Restored));
    assert_eq!(result.preview.surfaces().len(), 1);
    assert_eq!(result.preview.surfaces()[0].source_elements, vec![21, 22, 23, 24]);
    let index = result.vertex_source_nodes.iter().position(|&n| n == 4).unwrap();
    assert!(
        vector(&result.preview.vertices()[index]).distance(vector(&f.candidate_points[anchor]))
            < number(policy.precision)
    );
}

fn table(points: &BTreeMap<u32, DVec3>) -> PointTable {
    let mut result = PointTable::new();
    for (&n, &p) in points {
        result.insert(n, point(p));
    }
    result
}

fn flattened(mesh: &MeshData) -> BTreeMap<u32, DVec3> {
    mesh.nodes
        .ids()
        .into_iter()
        .map(|n| {
            let p = source(mesh, n);
            (n, if (4..=6).contains(&n) { DVec3::new(0., p.y, 0.) } else { p })
        })
        .collect()
}

#[test]
fn common_support_line_is_reported_without_moving_any_vertex() {
    let mesh = annulus(true);
    let f = planar_frame(&mesh, DVec3::Z);
    let regions = vec![Region { patch: 0, stiffness: 9, elements: vec![1, 2, 3] }];
    let rings = vec![RegionRings { region: 0, loops: vec![vec![1, 2, 3], vec![4, 5, 6]] }];
    let supports =
        vec![plane_frame(DVec3::ZERO, DVec3::Z).unwrap(), plane_frame(DVec3::ZERO, DVec3::X).unwrap()];
    let owners: Vec<NodeSurfaces> = (1..=6)
        .map(|n| NodeSurfaces { node: n, surfaces: if n >= 4 { vec![0, 1] } else { vec![0] } })
        .collect();
    let before = flattened(&mesh);
    let recovery = recover_holes(
        &mesh, &f, &scaled_policy(1.), &regions, &rings, &owners, &vec![0, 1], &supports, table(&before),
    );
    for (&n, &p) in &before {
        assert_eq!(recovery.points.get(n), Some(point(p)));
    }
    assert_eq!(recovery.reports.len(), 1);
    assert_eq!(recovery.reports[0].outcome, HoleOutcome::CommonSupportsForceLineOrPoint);
    assert_eq!(recovery.reports[0].constraints[0].normal_rank, 2);
    assert_eq!(recovery.reports[0].constraints[0].common_supports, vec![0, 1]);
}

#[test]
fn hole_recovery_cannot_degenerate_a_neighbor_and_rolls_back_all_vertices() {
    let mut mesh = annulus(true);
    insert(&mut mesh, 9, [0.1, -0.2, 0.]);
    let f = planar_frame(&mesh, DVec3::Z);
    let regions = vec![
        Region { patch: 0, stiffness: 9, elements: vec![1, 2, 3] },
        Region { patch: 0, stiffness: 9, elements: vec![4] },
    ];
    let rings = vec![
        RegionRings { region: 0, loops: vec![vec![1, 2, 3], vec![4, 5, 6]] },
        RegionRings { region: 1, loops: vec![vec![4, 1, 9]] },
    ];
    let supports = vec![plane_frame(DVec3::ZERO, DVec3::Z).unwrap()];
    let owners: Vec<NodeSurfaces> =
        mesh.nodes.ids().into_iter().map(|node| NodeSurfaces { node, surfaces: vec![0] }).collect();
    let mut before = flattened(&mesh);
    // The neighbour is valid now; restoring vertex 4 would put it on the
    // neighbour's other vertex 9.
    before.insert(9, source(&mesh, 4));
    let recovery = recover_holes(
        &mesh, &f, &scaled_policy(1.), &regions, &rings, &owners, &vec![0], &supports, table(&before),
    );
    assert_eq!(recovery.reports.len(), 1);
    assert_eq!(recovery.reports[0].outcome, HoleOutcome::ContourConflict);
    assert!(recovery.reports[0].changes.is_empty());
    for (&n, &p) in &before {
        assert_eq!(recovery.points.get(n), Some(point(p)));
    }
}

#[test]
fn collapsed_hole_is_reported_with_source_nodes_and_never_filled() {
    let mut mesh = MeshData::default();
    let points = [
        [-2., -2., 0.],
        [2., -2., 0.],
        [0., 2., 0.],
        [-0.005, 0., 0.],
        [0.005, 0., 0.],
        [0., 0.5, 0.],
    ];
    for (i, p) in points.into_iter().enumerate() {
        insert(&mut mesh, i as u32 + 1, p);
    }
    for i in 0..3_u32 {
        mesh.elements.push(element(i + 1, 44, 9, vec![i + 1, (i + 1) % 3 + 1, (i + 1) % 3 + 4, i + 4]));
    }
    let policy = scaled_policy(1.);
    let mut f = planar_frame(&mesh, DVec3::Z);
    let base = assemble(&mesh, &f, &policy).unwrap();
    assert!(base.all_surface_patches_built, "{:?}", base.issues);
    assert_eq!(base.preview.surfaces()[0].contours.len(), 2);
    // The candidate flattens the narrow hole into a line with distinct points.
    set_candidate(&mut f, 4, DVec3::ZERO);
    set_candidate(&mut f, 5, DVec3::new(0., 0.1, 0.));
    let result = assemble(&mesh, &f, &policy).unwrap();
    assert!(!result.all_surface_patches_built);
    assert!(result.preview.surfaces().is_empty());
    assert!(result.preview.edges().is_empty());
    assert_eq!(result.issues.len(), 1);
    assert_eq!(result.issues[0].reason, "degenerate_hole_after_closure");
    assert_eq!(result.hole_recovery[0].outcome, HoleOutcome::MovementBudget);
    assert_eq!(result.issues[0].source_elements, vec![1, 2, 3]);
    assert!(result.issues[0]
        .boundary_source_nodes
        .iter()
        .any(|r| r.iter().copied().collect::<BTreeSet<_>>() == BTreeSet::from([4, 5, 6])));
}

#[test]
fn nonmanifold_source_is_not_hidden_by_pinch_partition() {
    let facets = BTreeMap::from([(1, vec![1, 2, 3]), (2, vec![2, 1, 4]), (3, vec![1, 2, 5])]);
    assert_eq!(split_pinched_regions(&[1, 2, 3], &facets), vec![vec![1, 2, 3]]);
}

#[test]
fn offset_projection_closes_three_walls_without_changing_normals() {
    let planes = vec![
        plane_frame(DVec3::ZERO, DVec3::X).unwrap(),
        plane_frame(DVec3::ZERO, DVec3::Y).unwrap(),
        plane_frame(DVec3::new(0.0003, 0., 0.), DVec3::new(1., 1., 0.)).unwrap(),
    ];
    assert!(intersection(DVec3::ZERO, &planes.iter().collect::<Vec<_>>(), 1e-9).is_none());
    let closed = concurrent_supports(&planes, &[vec![0, 1, 2], vec![2, 1, 0]]);
    let met = intersection(DVec3::ZERO, &closed.iter().collect::<Vec<_>>(), 1e-9).unwrap();
    assert!(met.length() < 0.001);
    for (a, b) in planes.iter().zip(&closed) {
        assert_eq!(a.normal, b.normal);
        assert!(distance(a, vector(&b.origin)).abs() < 0.001);
    }
    let rotation = DQuat::from_axis_angle(DVec3::new(1., 2., 3.).normalize(), 0.6);
    let shift = DVec3::new(10., 20., 30.);
    let turned: Vec<_> = planes
        .iter()
        .map(|p| plane_frame(rotation * vector(&p.origin) + shift, rotation * vector(&p.normal)).unwrap())
        .collect();
    let result = concurrent_supports(&turned, &[vec![2, 0, 1]]);
    let transformed = intersection(shift, &result.iter().collect::<Vec<_>>(), 1e-9).unwrap();
    assert!(transformed.distance(rotation * met + shift) < 1e-9);
}

#[test]
fn tensor_numbering_preserves_outer_boundary_and_hole() {
    let mut mesh = MeshData::default();
    for y in 0..4 {
        for x in 0..4 {
            insert(&mut mesh, y * 4 + x + 1, [x as f64 + 10., y as f64 - 20., 7.]);
        }
    }
    for y in 0..3 {
        for x in 0..3 {
            if x == 1 && y == 1 {
                continue;
            }
            let a = y * 4 + x + 1;
            let id = mesh.elements.len() as u32 + 1;
            mesh.elements.push(element(id, 44, 9, vec![a, a + 1, a + 5, a + 4]));
        }
    }
    let plane = plane_frame(DVec3::new(0., 0., 7.), DVec3::Z).unwrap();
    let ids: Vec<_> = mesh.elements.iter().map(|e| e.id).collect();
    let original = boundary(&faces(&mesh, DVec3::Z, 1e-8)).unwrap();
    assert_eq!(original.len(), 2);
    assert_eq!(original.iter().map(Vec::len).collect::<BTreeSet<_>>(), BTreeSet::from([4, 12]));
    for e in &mut mesh.elements {
        e.nodes.swap(2, 3);
    }
    assert_eq!(boundary(&faces(&mesh, DVec3::Z, 1e-8)).unwrap(), original);
    let mut model = Model::new(scalar(1e-8), scalar(0.01)).unwrap();
    let p = model.add_plane(plane);
    let vertices: BTreeMap<u32, usize> = mesh
        .nodes
        .ids()
        .into_iter()
        .map(|id| (id, model.add_vertex(mesh.nodes.get(id).unwrap()).unwrap()))
        .collect();
    let mut rings = original;
    rings.sort_by_key(|r| std::cmp::Reverse(r.len()));
    let places: Vec<Vec<DVec3>> =
        rings.iter().map(|r| r.iter().map(|&n| source(&mesh, n)).collect()).collect();
    model
        .add_surface(
            p,
            rings.iter().map(|r| r.iter().map(|n| vertices[n]).collect()).collect(),
            ids,
            measure_rings(&plane, &places, 1e-8),
        )
        .unwrap();
    assert_eq!(model.surfaces()[0].contours.len(), 2);
    assert_eq!(model.surfaces()[0].source_elements.len(), 8);
}

#[test]
fn assembles_common_edge_despite_small_unaccepted_frame_residual() {
    let mut mesh = MeshData::default();
    let points =
        [[0., 0., 0.], [0., 1., 0.], [1., 1., 0.], [1., 0., 0.], [0., 1., 1.], [0., 0., 1.]];
    for (i, p) in points.iter().enumerate() {
        insert(&mut mesh, i as u32 + 1, *p);
    }
    mesh.elements = vec![element(1, 44, 10, vec![1, 2, 3, 4]), element(2, 44, 20, vec![1, 2, 5, 6])];
    let mut f = planar_frame(&mesh, DVec3::Z);
    f.accepted = false;
    f.candidate_points[0] = point(DVec3::new(0.0003, 0., 0.0002));
    let mut p = scaled_policy(1.);
    p.junction_movement_limit = scalar(0.001);
    let result = assemble(&mesh, &f, &p).unwrap();
    assert!(result.all_surface_patches_built, "{:?}", result.issues);
    assert!(!result.export_ready);
    assert_eq!(result.preview.surfaces().len(), 2);
    assert_eq!(result.preview.vertices().len(), 6);
    assert_eq!(result.preview.edges().len(), 7);
    assert!(number(result.maximum_closure_movement) > 0.0003);
    for surface in result.preview.surfaces() {
        for edge in surface.boundaries.iter().flatten() {
            for v in result.preview.edges()[edge.edge] {
                let plane = &result.preview.planes()[surface.plane];
                assert!(distance(plane, vector(&result.preview.vertices()[v])).abs() < 1e-7);
            }
        }
    }
    let mut planar = moved(&mesh, |n| n, |e| e, |p| p);
    insert(&mut planar, 5, [-1., 1., 0.]);
    insert(&mut planar, 6, [-1., 0., 0.]);
    let planar_planes = patches(&planar, &plane_policy()).unwrap();
    assert_eq!(planar_planes.patches.len(), 1);
    let bars = axes(&mesh, &axis_policy()).unwrap();
    let flat = solve(&planar, &bars, &planar_planes, &f.policy).unwrap();
    let materialized = assemble(&planar, &flat, &p).unwrap();
    assert!(materialized.all_surface_patches_built);
    assert_eq!(materialized.surface_source_patches, vec![0, 0]);
    assert_eq!(materialized.surface_stiffness, vec![10, 20]);
    assert_eq!(materialized.preview.surfaces().len(), 2);
    assert_eq!(materialized.preview.edges().len(), 7);
    assert_eq!(materialized.preview.surfaces()[0].source_elements, vec![1]);
    assert_eq!(materialized.preview.surfaces()[1].source_elements, vec![2]);
    f.candidate_points[0] = point(DVec3::new(0.002, 0., 0.002));
    let blocked = assemble(&mesh, &f, &p).unwrap();
    assert!(!blocked.all_surface_patches_built);
    assert!(blocked.preview.surfaces().is_empty());
    assert_eq!(blocked.issues.len(), 2);
    let mut larger = p;
    larger.junction_movement_limit = scalar(0.01);
    let permitted = assemble(&mesh, &f, &larger).unwrap();
    assert!(permitted.all_surface_patches_built);
    assert!(number(permitted.maximum_closure_movement) > number(larger.closure_tolerance));
    assert_eq!(permitted.preview.edges().len(), 7);
    f.policy.maximum_movement = scalar(1e-6);
    // The shared point moves tangentially, so that projection does not remove its
    // accumulated displacement from the source.
    f.candidate_points[0] = point(DVec3::new(0.002, 0.0002, 0.002));
    assert!(!assemble(&mesh, &f, &larger).unwrap().all_surface_patches_built);
}

#[test]
fn closes_shared_point_on_two_planes_and_rejects_parallel_gap() {
    let a = plane_frame(DVec3::ZERO, DVec3::Z).unwrap();
    let b = plane_frame(DVec3::ZERO, DVec3::X).unwrap();
    let p = intersection(DVec3::new(0.0003, 2., 0.0002), &[&a, &b], 1e-9).unwrap();
    assert!(p.distance(DVec3::new(0., 2., 0.)) < 1e-9);
    let c = plane_frame(DVec3::new(0., 0., 0.0001), DVec3::Z).unwrap();
    assert!(intersection(p, &[&a, &c], 1e-9).is_none());
}

#[test]
fn redundant_planes_do_not_move_point_twice() {
    let a = plane_frame(DVec3::ZERO, DVec3::Z).unwrap();
    let p = intersection(DVec3::new(1., 2., 0.0003), &[&a, &a], 1e-9).unwrap();
    assert_eq!(p, DVec3::new(1., 2., 0.));
}

#[test]
fn assembly_errors_name_what_is_wrong() {
    let mesh = slab();
    let mut f = planar_frame(&mesh, DVec3::Z);
    let mut p = scaled_policy(1.);
    p.closure_tolerance = scalar(0.0);
    assert_eq!(assemble(&mesh, &f, &p).unwrap_err(), "invalid closure tolerance");
    let mut p = scaled_policy(1.);
    p.minimum_edge = scalar(0.0);
    assert_eq!(assemble(&mesh, &f, &p).unwrap_err(), "invalid assembly policy");
    f.surfaces[0].stiffness_regions[0].elements.clear();
    assert_eq!(assemble(&mesh, &f, &scaled_policy(1.)).unwrap_err(), "invalid property coverage");
    f.candidate_points.pop();
    assert_eq!(assemble(&mesh, &f, &scaled_policy(1.)).unwrap_err(), "incomplete frame proposal");
}

fn slab_beam_column() -> MeshData {
    let mut mesh = MeshData::default();
    for y in 0..3 {
        for x in 0..3 {
            insert(&mut mesh, 1 + x + 3 * y, [x as f64, y as f64, 0.]);
        }
    }
    for y in 0..2 {
        for x in 0..2 {
            let a = 1 + x + 3 * y;
            let id = mesh.elements.len() as u32 + 1;
            mesh.elements.push(element(id, 44, 1, vec![a, a + 1, a + 4, a + 3]));
        }
    }
    insert(&mut mesh, 10, [1., 1., -2.]);
    mesh.elements.push(element(5, 10, 10, vec![4, 5]));
    mesh.elements.push(element(6, 10, 20, vec![5, 6]));
    mesh.elements.push(element(7, 10, 30, vec![10, 5]));
    mesh
}

#[test]
fn interior_joint_shares_one_vertex_without_splitting_axis_or_properties() {
    for scale in [0.1, 1., 10.] {
        for transformed in [false, true] {
            let q = if transformed {
                DQuat::from_axis_angle(DVec3::new(1., 2., 3.).normalize(), 0.6)
            } else {
                DQuat::IDENTITY
            };
            let shift = DVec3::new(20., -30., 50.);
            let id = |n: u32| if transformed { 100 - n } else { n };
            let mut mesh = moved(&slab_beam_column(), id, id, |p| q * (p * scale) + shift);
            for e in &mut mesh.elements {
                e.nodes.reverse();
            }
            if transformed {
                mesh.elements.reverse();
            }
            let f = planar_frame(&mesh, q * DVec3::Z);
            let result = assemble(&mesh, &f, &scaled_policy(scale)).unwrap();
            let r = &result.axis_assembly;
            assert!(result.all_surface_patches_built);
            assert!(r.all_axes_built, "{:?}", r.issues);
            assert_eq!(r.axes.len(), 2);
            let beam = r.axes.iter().find(|a| a.spans.len() == 2).unwrap();
            assert_eq!(beam.endpoints.len(), 2);
            assert_eq!(
                beam.spans.iter().map(|s| s.stiffness).collect::<BTreeSet<_>>(),
                BTreeSet::from([10, 20])
            );
            let middle = beam.anchors.iter().find(|a| a.source_node == id(5)).unwrap();
            assert!((number(middle.t) - 0.5).abs() < 1e-7);
            let column = r.axes.iter().find(|a| a.spans.len() == 1).unwrap();
            assert!(column.endpoints.contains(&middle.vertex));
            assert_eq!(result.vertex_source_nodes.iter().filter(|&&n| n == id(5)).count(), 1);
            assert!(r.contacts.iter().any(|c| matches!(
                c,
                Contact::Point { vertex, location: Location::Interior, .. } if *vertex == middle.vertex
            )));
            assert!(r.contacts.iter().any(|c| matches!(
                c,
                Contact::Interval { start_t, end_t, location: Location::Interior, .. }
                    if number(*start_t).abs() < 1e-7 && (number(*end_t) - 1.).abs() < 1e-7
            )));
            let sources: BTreeSet<_> =
                r.axes.iter().flat_map(|a| a.spans.iter().map(|s| s.element)).collect();
            assert_eq!(sources, BTreeSet::from([id(5), id(6), id(7)]));
            let vertices = result.preview.vertices();
            for axis in &r.axes {
                let a = vector(&vertices[axis.endpoints[0]]);
                let b = vector(&vertices[axis.endpoints[1]]);
                for anchor in &axis.anchors {
                    assert!(
                        vector(&vertices[anchor.vertex]).distance(a.lerp(b, number(anchor.t)))
                            < number(scaled_policy(scale).precision)
                    );
                }
            }
        }
    }
}

#[test]
fn interior_fe_nodes_slide_on_axis_and_property_parameters_follow() {
    let mut mesh = MeshData::default();
    for y in 0..3 {
        for x in 0..5 {
            insert(&mut mesh, 1 + x + 5 * y, [x as f64, y as f64, 0.]);
        }
    }
    for y in 0..2 {
        for x in 0..4 {
            let a = 1 + x + 5 * y;
            let id = mesh.elements.len() as u32 + 1;
            mesh.elements.push(element(id, 44, 1, vec![a, a + 1, a + 6, a + 5]));
        }
    }
    mesh.elements.push(element(9, 10, 10, vec![7, 8]));
    mesh.elements.push(element(10, 10, 20, vec![8, 9]));
    let mut f = planar_frame(&mesh, DVec3::Z);
    for n in 7..=9 {
        let mut p = candidate(&f, n);
        p.z = 0.00002;
        if n == 8 {
            p.x += 0.02;
            p.y += 0.002;
        }
        set_candidate(&mut f, n, p);
    }
    let r = assemble(&mesh, &f, &scaled_policy(1.)).unwrap();
    assert!(r.axis_assembly.all_axes_built, "{:?}", r.axis_assembly.issues);
    assert_eq!(r.axis_assembly.axes.len(), 1);
    let axis = &r.axis_assembly.axes[0];
    let anchor = axis.anchors.iter().find(|a| a.source_node == 8).unwrap();
    let place = vector(&r.preview.vertices()[anchor.vertex]);
    assert!(place.distance(DVec3::new(2.02, 1., 0.)) < 1e-7);
    assert!((number(anchor.t) - 0.51).abs() < 1e-7);
    assert!((number(axis.spans[0].end_t) - number(anchor.t)).abs() < 1e-7);
    assert!((number(axis.spans[1].start_t) - number(anchor.t)).abs() < 1e-7);
    assert_eq!(axis.spans[0].stiffness, 10);
    assert_eq!(axis.spans[1].stiffness, 20);
}

#[test]
fn fixed_middle_joint_rejects_bent_beam_without_moving_surface_vertices() {
    let mesh = slab_beam_column();
    let mut f = planar_frame(&mesh, DVec3::Z);
    let bent = candidate(&f, 5) + DVec3::Y * 0.002;
    set_candidate(&mut f, 5, bent);
    let before = f.candidate_points.clone();
    let r = assemble(&mesh, &f, &scaled_policy(1.)).unwrap();
    assert_eq!(f.candidate_points, before);
    assert!(r.all_surface_patches_built);
    assert!(!r.axis_assembly.all_axes_built);
    assert_eq!(r.axis_assembly.axes.len(), 1);
    assert_eq!(r.axis_assembly.issues.len(), 1);
    assert_eq!(r.axis_assembly.issues[0].reason, "shared_anchors_not_collinear");
    assert_eq!(
        r.axis_assembly.issues[0].source_elements.iter().copied().collect::<BTreeSet<_>>(),
        BTreeSet::from([5, 6])
    );
    assert_eq!(r.axis_assembly.issues[0].source_nodes, vec![5]);
    let vertex = r.vertex_source_nodes.iter().position(|&n| n == 5).unwrap();
    assert!(vector(&r.preview.vertices()[vertex]).distance(DVec3::new(1., 1.002, 0.)) < 1e-7);
}

#[test]
fn coplanar_intervals_respect_holes_and_boundary_roles() {
    let shape = vec![
        vec![[0., 0.], [4., 0.], [4., 4.], [0., 4.]],
        vec![[1., 1.], [3., 1.], [3., 3.], [1., 3.]],
    ];
    let found = |a, b| -> Vec<(f64, f64, Location)> {
        intervals(a, b, &shape, 1e-8)
            .iter()
            .map(|i| (number(i.start_t), number(i.end_t), i.location))
            .collect()
    };
    assert_eq!(
        found([0., 2.], [4., 2.]),
        vec![(0., 0.25, Location::Interior), (0.75, 1., Location::Interior)]
    );
    assert_eq!(found([0., 0.], [4., 0.]), vec![(0., 1., Location::Boundary)]);
    assert_eq!(found([1.1, 2.], [2.9, 2.]), vec![]);
    assert_eq!(location([2., 2.], &shape, 1e-8), None);
}

#[test]
fn short_axis_preserves_vector_and_over_budget_attempt_creates_no_vertices() {
    let mut mesh = MeshData::default();
    insert(&mut mesh, 1, [0., 0., 0.]);
    insert(&mut mesh, 2, [0.006, 0.008, 0.]);
    mesh.elements.push(element(1, 10, 9, vec![1, 2]));
    let mut f = planar_frame(&mesh, DVec3::Z);
    for p in &mut f.candidate_points {
        *p = point(vector(p) + DVec3::Z * 0.0001);
    }
    let r = assemble(&mesh, &f, &scaled_policy(1.)).unwrap();
    assert!(r.axis_assembly.all_axes_built, "{:?}", r.axis_assembly.issues);
    let ends = r.axis_assembly.axes[0].endpoints;
    let d = vector(&r.preview.vertices()[ends[1]]) - vector(&r.preview.vertices()[ends[0]]);
    assert!(d.distance(source(&mesh, 2) - source(&mesh, 1)) < 1e-8);
    for p in &mut f.candidate_points {
        *p = point(vector(p) + DVec3::Z * 0.01);
    }
    let refused = assemble(&mesh, &f, &scaled_policy(1.)).unwrap();
    assert!(!refused.axis_assembly.all_axes_built);
    assert!(refused.preview.vertices().is_empty());
    assert!(refused.axis_assembly.axes.is_empty());
    assert_eq!(refused.axis_assembly.issues[0].reason, "axis_movement_budget");
}

fn opening(width: f64, collapsed: bool, transform: bool) -> (MeshData, PointTable, PlaneFrame) {
    let turn = DQuat::from_rotation_x(0.7);
    let apply = |p: DVec3| if transform { turn * p + DVec3::new(31., -14., 8.) } else { p };
    let mut mesh = MeshData::default();
    let mut points = PointTable::new();
    let places = [
        [0., 0., 0.],
        [10., 0., 0.],
        [10., 10., 0.],
        [0., 10., 0.],
        [4., 4., 0.],
        [4.4, 4., 0.],
        [4.2, 4. + width, 0.],
    ];
    for (i, p) in places.into_iter().enumerate() {
        let p = point(apply(DVec3::from_array(p)));
        mesh.nodes.insert(i as u32, p);
        points.insert(i as u32, p);
    }
    if collapsed {
        points.insert(6, point(apply(DVec3::new(4.2, 4., 0.))));
    }
    let normal = if transform { turn * DVec3::Z } else { DVec3::Z };
    (mesh, points, plane_frame(apply(DVec3::ZERO), normal).unwrap())
}

#[test]
fn closure_is_bounded_and_rigid_transform_invariant() {
    let region = Region { patch: 0, stiffness: 1, elements: vec![12] };
    for transform in [false, true] {
        for (width, collapsed, expected) in [(0.01, true, 1), (0.01, false, 0), (0.2, true, 0)] {
            let (mesh, points, plane) = opening(width, collapsed, transform);
            let loops = vec![vec![0, 1, 2, 3], vec![4, 5, 6]];
            let result =
                simplify(&mesh, &points, &plane, &loops, &region, 1e-7, &FeaturePolicy::default());
            assert_eq!(result.removed.len(), expected);
            assert_eq!(result.kept.len(), 2 - expected);
        }
    }
}

#[test]
fn cumulative_area_budget_and_crossed_source_are_not_bypassed() {
    let region = Region { patch: 0, stiffness: 1, elements: vec![12] };
    let (mut mesh, mut points, plane) = opening(0.01, true, false);
    let loops = vec![vec![0, 1, 2, 3], vec![4, 5, 6]];
    let mut policy = FeaturePolicy::default();
    policy.maximum_filled_area_ratio = scalar(0.000001);
    assert!(simplify(&mesh, &points, &plane, &loops, &region, 1e-7, &policy).removed.is_empty());
    insert(&mut mesh, 7, [4.4, 4.01, 0.]);
    insert(&mut mesh, 8, [4., 4.01, 0.]);
    points.insert(7, point(DVec3::new(4.4, 4., 0.)));
    points.insert(8, point(DVec3::new(4., 4., 0.)));
    let crossed = vec![vec![0, 1, 2, 3], vec![4, 7, 5, 8]];
    assert!(simplify(&mesh, &points, &plane, &crossed, &region, 1e-7, &FeaturePolicy::default())
        .removed
        .is_empty());
}

fn square() -> (Model, usize, Vec<usize>) {
    let mut model = Model::new(scalar(1e-8), scalar(0.03)).unwrap();
    let plane = model.add_plane(plane_frame(DVec3::ZERO, DVec3::Z).unwrap());
    let ring = [[0., 0., 0.], [2., 0., 0.], [2., 2., 0.], [0., 2., 0.]]
        .map(|p| model.add_vertex(point(DVec3::from_array(p))).unwrap())
        .to_vec();
    (model, plane, ring)
}

fn add(m: &mut Model, plane: usize, rings: Vec<Vec<usize>>, elements: Vec<u32>) -> Result<usize, Error> {
    let places: Vec<Vec<DVec3>> =
        rings.iter().map(|r| r.iter().map(|&v| vector(&m.vertices()[v])).collect()).collect();
    let measures = measure_rings(&m.planes()[plane], &places, 1e-8);
    m.add_surface(plane, rings, elements, measures)
}

fn vertex(m: &mut Model, p: [f64; 3]) -> usize {
    m.add_vertex(point(DVec3::from_array(p))).unwrap()
}

#[test]
fn perpendicular_surfaces_reuse_one_boundary() {
    let (mut m, slab, r) = square();
    add(&mut m, slab, vec![r.clone()], vec![7]).unwrap();
    let wall = m.add_plane(plane_frame(DVec3::ZERO, DVec3::Y).unwrap());
    let a = vertex(&mut m, [0., 0., 3.]);
    let b = vertex(&mut m, [2., 0., 3.]);
    add(&mut m, wall, vec![vec![r[1], r[0], a, b]], vec![8]).unwrap();
    assert_eq!(m.edges().len(), 7);
    let e = &m.surfaces()[0].boundaries[0][0];
    let f = &m.surfaces()[1].boundaries[0][0];
    assert_eq!(e.edge, f.edge);
    assert_ne!(e.reversed, f.reversed);
    for surface in m.surfaces() {
        let frame = &m.planes()[surface.plane];
        for uv in contours(surface).into_iter().flatten() {
            assert!(distance(frame, lift(frame, uv)).abs() < 1e-12);
        }
    }
}

#[test]
fn warped_surface_is_rejected_transactionally() {
    let (mut m, p, mut r) = square();
    r[2] = vertex(&mut m, [2., 2., 0.001]);
    let before = format!("{m:?}");
    assert_eq!(add(&mut m, p, vec![r], vec![1]), Err(Error::NonPlanar));
    assert_eq!(before, format!("{m:?}"));
}

#[test]
fn rejects_self_intersections_and_short_edges() {
    let (mut m, p, r) = square();
    assert_eq!(
        add(&mut m, p, vec![vec![r[0], r[2], r[1], r[3]]], vec![]),
        Err(Error::InvalidRing)
    );
    let near = vertex(&mut m, [0.001, 0., 0.]);
    assert_eq!(add(&mut m, p, vec![vec![r[0], near, r[2], r[3]]], vec![]), Err(Error::ShortEdge));
    assert!(m.edges().is_empty());
}

#[test]
fn holes_must_be_disjoint_and_strictly_inside() {
    let (mut m, p, r) = square();
    let hole =
        [[0.5, 0.5, 0.], [1.5, 0.5, 0.], [1.5, 1.5, 0.], [0.5, 1.5, 0.]].map(|q| vertex(&mut m, q)).to_vec();
    assert!(add(&mut m, p, vec![r.clone(), hole.clone()], vec![9, 8, 9]).is_ok());
    assert_eq!(m.surfaces()[0].source_elements, vec![8, 9]);
    let before = m.edges().len();
    assert_eq!(
        add(&mut m, p, vec![r.clone(), hole.clone(), hole], vec![]),
        Err(Error::InvalidRing)
    );
    let outside =
        [[3., 0., 0.], [4., 0., 0.], [4., 1., 0.], [3., 1., 0.]].map(|q| vertex(&mut m, q)).to_vec();
    assert_eq!(add(&mut m, p, vec![r, outside], vec![]), Err(Error::InvalidRing));
    assert_eq!(m.edges().len(), before);
}

#[test]
fn rigid_transform_preserves_shared_topology() {
    let (base, _, _) = square();
    let rotation = DQuat::from_axis_angle(DVec3::new(1., 2., 3.).normalize(), 0.73);
    let shift = DVec3::new(100., -250., 73.);
    let mut m = Model::new(scalar(1e-8), scalar(0.03)).unwrap();
    let p = m.add_plane(plane_frame(shift, rotation * DVec3::Z).unwrap());
    let ids = base
        .vertices()
        .iter()
        .map(|v| m.add_vertex(point(rotation * vector(v) + shift)).unwrap())
        .collect();
    add(&mut m, p, vec![ids], vec![1]).unwrap();
    assert_eq!(m.edges().len(), 4);
    for &uv in &contours(&m.surfaces()[0])[0] {
        assert!(distance(&m.planes()[p], lift(&m.planes()[p], uv)).abs() < 1e-10);
    }
}

#[test]
fn invalid_numeric_inputs_are_rejected() {
    assert!(plane_frame(DVec3::ZERO, DVec3::ZERO).is_none());
    assert!(plane_frame(DVec3::new(f64::NAN, 0., 0.), DVec3::Z).is_none());
    assert!(Model::new(scalar(0.), scalar(0.03)).is_err());
    assert!(Model::new(scalar(1e-8), scalar(f64::INFINITY)).is_err());
    let mut m = Model::new(scalar(1e-8), scalar(0.03)).unwrap();
    assert_eq!(m.add_vertex(point(DVec3::new(0., f64::NAN, 0.))), Err(Error::InvalidVertex));
    assert_eq!(m.add_surface(0, vec![], vec![], vec![]), Err(Error::InvalidPlane));
}

/// What pairs of surfaces measure before and after movements.
fn overlap_measures(before: &Model, after: &Model, precision: f64) -> Vec<OverlapMeasure> {
    let mut pairs = Vec::new();
    for i in 0..before.surfaces().len() {
        for j in i + 1..before.surfaces().len() {
            let plane = &before.planes()[before.surfaces()[i].plane];
            let other = &before.planes()[before.surfaces()[j].plane];
            let spots = |model: &Model, s: usize| -> Contours {
                let surface = &model.surfaces()[s];
                let own = &model.planes()[surface.plane];
                contours(surface)
                    .iter()
                    .map(|r| r.iter().map(|uv| project(plane, lift(own, *uv))).collect())
                    .collect()
            };
            let area = |model: &Model, s: usize| material(&spots(model, s));
            let old = area(before, i).intersection(&area(before, j));
            let new = area(after, i).intersection(&area(after, j));
            let size = |s: usize| area(before, s).unsigned_area().sqrt();
            let second = contours(&before.surfaces()[j]);
            pairs.push(OverlapMeasure {
                surfaces: [i, j],
                tilt: scalar(vector(&plane.normal).cross(vector(&other.normal)).length()),
                offsets: scalars(second.iter().flatten().map(|uv| distance(plane, lift(other, *uv)).abs())),
                growth: scalar(new.difference(&old).unsigned_area()),
                tolerance: scalar(precision * (size(i) + size(j))),
            });
        }
    }
    pairs
}

/// Two squares side by side, the first of them widened.
fn two_squares(widened: f64) -> Model {
    let mut model = Model::new(scalar(1e-7), scalar(0.001)).unwrap();
    let plane = plane_frame(DVec3::ZERO, DVec3::Z).unwrap();
    let id = model.add_plane(plane);
    for (left, right) in [(0., 1. + widened), (1.01, 2.)] {
        let places = [[left, 0., 0.], [right, 0., 0.], [right, 1., 0.], [left, 1., 0.]].map(DVec3::from_array).to_vec();
        let ring = places.iter().map(|q| model.add_vertex(point(*q)).unwrap()).collect();
        let measures = measure_rings(&plane, &[places], 1e-7);
        model.add_surface(id, vec![ring], vec![], measures).unwrap();
    }
    model
}

#[test]
fn rejects_new_overlap_between_individually_valid_surfaces() {
    let before = two_squares(0.);
    let after = two_squares(0.02);
    let precision = scalar(1e-7);
    assert!(!no_new_coplanar_overlap(&overlap_measures(&before, &after, 1e-7), &vec![0], &precision));
    assert!(no_new_coplanar_overlap(&overlap_measures(&before, &before, 1e-7), &vec![0], &precision));
    assert!(no_new_coplanar_overlap(&overlap_measures(&before, &after, 1e-7), &vec![], &precision));
}

#[test]
fn moved_boundaries_name_the_surfaces_they_reach() {
    let model = two_squares(0.);
    let nodes: Vec<u32> = (101..109).collect();
    let targets = vec![point(DVec3::X), point(DVec3::Y)];
    let propose = |distances: [f64; 2]| {
        propose_movement(
            7,
            &vec![102, 106],
            &targets,
            &scalars(distances),
            &scalar(1e-3),
            model.surfaces(),
            model.edges(),
            &nodes,
        )
    };
    assert!(propose([0., 1e-4]).is_none());
    let one = propose([0.1, 0.]).unwrap();
    assert_eq!((one.axis, one.nodes, one.affected), (7, vec![102], vec![0]));
    let both = propose([0.1, 0.2]).unwrap();
    assert_eq!((both.nodes, both.affected), (vec![102, 106], vec![0, 1]));
    assert_eq!(vector(&both.targets[1]), DVec3::Y);
}

#[test]
fn repairs_of_a_common_surface_are_settled_together() {
    let proposal = |axis: usize, node: u32, affected: Vec<usize>| Proposal {
        axis,
        nodes: vec![node],
        targets: vec![point(DVec3::X * axis as f64)],
        affected,
    };
    let mut locked = PointTable::new();
    for node in [10, 11, 12] {
        locked.insert(node, point(DVec3::ZERO));
    }
    let mut repairs = Repairs {
        baseline: vec![0],
        proposals: vec![proposal(1, 10, vec![0]), proposal(2, 11, vec![2]), proposal(3, 12, vec![0, 1])],
        locked,
        reports: vec![],
    };
    assert_eq!(repairs.groups(), vec![vec![0, 2], vec![1]]);
    assert_eq!(repairs.group_axes(&vec![0, 2]), vec![1, 3]);
    assert_eq!(repairs.group_surfaces(&vec![0, 2]), vec![0, 1]);
    assert_eq!(repairs.required_axes(&vec![0, 2]), vec![0, 1, 3]);
    let mut model = Model::new(scalar(1e-8), scalar(0.1)).unwrap();
    for _ in 0..3 {
        model.add_vertex(point(DVec3::ZERO)).unwrap();
    }
    let nodes = vec![10, 11, 12];
    let mut settle = |repairs: &mut Repairs, group: Vec<usize>, valid: bool, clear: bool, consistent: bool| {
        repairs.settle(&mut model, &nodes, &group, valid, clear, consistent, vec![]);
        model.vertices().iter().map(vector).collect::<Vec<_>>()
    };
    assert_eq!(settle(&mut repairs, vec![0, 2], true, false, true), [DVec3::ZERO; 3]);
    assert_eq!(repairs.reports[0].reason, "new_coplanar_overlap");
    assert!(!repairs.reports[0].accepted && repairs.reports[0].changes.is_empty());
    assert_eq!(vector(&repairs.locked.get(10).unwrap()), DVec3::ZERO);
    assert_eq!(settle(&mut repairs, vec![1], true, true, true), [DVec3::ZERO, DVec3::X * 2., DVec3::ZERO]);
    assert_eq!(repairs.reports[1].reason, "boundary_anchors_regularized");
    assert_eq!(repairs.reports[1].changes.len(), 1);
    assert_eq!(vector(&repairs.locked.get(11).unwrap()), DVec3::X * 2.);
    assert_eq!(repairs.required_axes(&vec![0]), vec![0, 1, 2]);
    assert_eq!(settle(&mut repairs, vec![0], false, true, true)[0], DVec3::ZERO);
    assert_eq!(repairs.reports[2].reason, "invalid_neighbor_contour");
    settle(&mut repairs, vec![0], true, true, false);
    assert_eq!(repairs.reports[3].reason, "axis_or_incidence_conflict");
}

#[test]
fn interior_anchors_of_long_axes_slide() {
    let axis = |ends: [usize; 2], anchors: &[(usize, f64)]| frame::Axis {
        endpoints: ends,
        anchors: anchors.iter().map(|&(node, t)| frame::Anchor { node, t: scalar(t) }).collect(),
        spans: vec![],
    };
    let list = vec![axis([0, 2], &[(0, 0.), (1, 0.4), (2, 1.)]), axis([2, 4], &[(2, 0.), (3, 0.5), (4, 1.)])];
    let at = |axis: usize, node_id: u32, component: usize| ConstraintOrigin::AxisAnchor { axis, node_id, component };
    let origins = vec![
        at(0, 10, 0),
        at(0, 11, 0),
        ConstraintOrigin::AxisDirection { axis: 0 },
        at(0, 11, 1),
        at(1, 13, 2),
        at(0, 12, 0),
    ];
    let ids = vec![10, 11, 12, 13, 14];
    let found = parameters(&origins, &list, &ids, &scalars([5., 0.01]), &scalar(0.03), 100);
    assert_eq!(found.len(), 1);
    assert_eq!((found[0].axis, found[0].anchor, found[0].variable), (0, 1, 100));
    assert_eq!(found[0].rows, vec![(1, 0), (3, 1)]);
    let both = parameters(&origins, &list, &ids, &scalars([5., 1.]), &scalar(0.03), 100);
    assert_eq!(both.len(), 2);
    assert_eq!((both[1].axis, both[1].anchor, both[1].variable), (1, 1, 101));
    let table = read_back(&list, &found, &scalars([0.75]));
    let values: Vec<Vec<f64>> = table.iter().map(|r| r.iter().map(|t| number(*t)).collect()).collect();
    assert_eq!(values, vec![vec![0., 0.75, 1.], vec![0., 0.5, 1.]]);
    let trials = |costs: &[Option<f64>]| costs.iter().map(|c| c.map(scalar)).collect::<Vec<_>>();
    assert_eq!(first_better(&trials(&[Some(3.), None, Some(1.), Some(0.5)]), &scalar(2.)), Some(2));
    assert_eq!(first_better(&trials(&[Some(3.), Some(2.)]), &scalar(2.)), None);
}

#[test]
fn moved_vertices_leave_contours_to_be_measured_anew() {
    let mut model = two_squares(0.);
    let target = DVec3::new(1.5, 0., 0.);
    model.move_vertex(1, point(target));
    assert_eq!(vector(&model.vertices()[1]), target);
    assert_eq!(number(model.surfaces()[0].contours[0][1][0]), number(two_squares(0.).surfaces()[0].contours[0][1][0]));
    let flat = [[0., 0.], [1.5, 0.], [1., 1.], [0., 1.]].map(|uv| uv.map(scalar)).to_vec();
    model.reshape_surface(0, vec![flat]);
    assert_eq!(number(model.surfaces()[0].contours[0][1][0]), 1.5);
    assert_eq!(model.surfaces().len(), 2);
}

#[test]
fn solve_has_the_equations_of_its_axes_and_supports() {
    let line = |a: usize, b: usize| frame::Axis {
        endpoints: [a, b],
        anchors: vec![frame::Anchor { node: b, t: scalar(1.0) }],
        spans: vec![],
    };
    let frame_of = plane_frame(DVec3::ZERO, DVec3::Z).unwrap();
    let prepared = Prepared {
        node_ids: vec![4, 7, 9],
        reference: vec![point(DVec3::ZERO), point(DVec3::X), point(DVec3::Z)],
        budgets: vec![scalar(0.1); 3],
        axes: vec![line(0, 1), line(0, 2), line(1, 2)],
        surfaces: vec![frame::Surface {
            plane: frame_of,
            nodes: vec![0, 2],
            source_elements: vec![],
            stiffness_regions: vec![],
        }],
    };
    let directions = vec![Direction::Horizontal, Direction::Vertical, Direction::Inclined];
    let list: Vec<_> = constraints(&prepared, &directions).iter().map(|c| (c.origin, c.place)).collect();
    let anchor = |axis, node_id, component| (ConstraintOrigin::AxisAnchor { axis, node_id, component }, 0);
    let held = |axis, place| (ConstraintOrigin::AxisDirection { axis }, place);
    let on = |node_id, place| (ConstraintOrigin::PlaneIncidence { plane: 0, node_id }, place);
    let mut expected = vec![anchor(0, 7, 0), anchor(0, 7, 1), anchor(0, 7, 2), held(0, 0)];
    expected.extend([anchor(1, 9, 0), anchor(1, 9, 1), anchor(1, 9, 2), held(1, 0), held(1, 1)]);
    expected.extend([anchor(2, 9, 0), anchor(2, 9, 1), anchor(2, 9, 2)]);
    expected.extend([on(4, 0), on(9, 1)]);
    assert_eq!(list, expected);
}

#[test]
fn greatest_residuals_are_reported_first() {
    let origins: Vec<_> = (0..5).map(|axis| ConstraintOrigin::AxisDirection { axis }).collect();
    let residuals = scalars([0.2, 0.1, 0.5, 0.3, 0.5]);
    let axes = |room: usize| -> (usize, Vec<ConstraintOrigin>) {
        let (count, worst) = worst_failures(&origins, &residuals, &scalar(0.1), room);
        (count, worst.iter().map(|f| f.origin).collect())
    };
    let named = |list: &[usize]| -> Vec<_> { list.iter().map(|&i| origins[i]).collect() };
    assert_eq!(axes(20), (4, named(&[2, 4, 3, 0])));
    assert_eq!(axes(2), (4, named(&[2, 4])));
    assert_eq!(axes(0), (4, vec![]));
}

#[test]
fn supports_common_to_all_joints_are_found() {
    let joint = |node: u32, planes: Vec<usize>| Joint { node, axes: vec![], planes, surfaces: vec![], unbuilt: false };
    let known = vec![joint(2, vec![5, 1, 3, 1]), joint(6, vec![3, 5]), joint(8, vec![3, 4])];
    assert_eq!(common_planes(&known, &vec![2]), vec![1, 3, 5]);
    assert_eq!(common_planes(&known, &vec![2, 6]), vec![3, 5]);
    assert_eq!(common_planes(&known, &vec![8, 6, 2]), vec![3]);
    assert_eq!(common_planes(&known, &vec![2, 7]), Vec::<usize>::new());
    assert_eq!(common_planes(&known, &vec![]), Vec::<usize>::new());
}

#[test]
fn opened_parts_come_by_number() {
    let facets: BTreeMap<u32, Vec<u32>> =
        BTreeMap::from([(3, vec![1, 2, 3]), (2, vec![1, 3, 4]), (1, vec![1, 5, 6])]);
    let parts = vec![vec![1], vec![2, 3]];
    assert_eq!(split_pinched_regions(&[3, 2, 1], &facets), parts);
    assert_eq!(split_pinched_regions(&[1, 2, 3], &facets), parts);
    // A part is left whole, and a settled region keeps its order.
    for part in &parts {
        assert_eq!(split_pinched_regions(part, &facets), vec![part.clone()]);
    }
    assert_eq!(split_pinched_regions(&[3, 2], &facets), vec![vec![3, 2]]);
    // A side from a node to itself has two ends there.
    let looped = BTreeMap::from([(1, vec![1, 1, 2]), (2, vec![1, 3, 4]), (3, vec![])]);
    assert_eq!(split_pinched_regions(&[2, 1], &looped), vec![vec![1], vec![2]]);
    assert_eq!(split_pinched_regions(&[1], &looped), vec![vec![1]]);
    assert_eq!(split_pinched_regions(&[3, 2], &looped), vec![vec![3, 2]]);
}
