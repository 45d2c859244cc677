//! Common boundaries of panels, and bars on the surfaces they meet.
use geo::{Area, BooleanOps, Contains, Intersects, LineString, Point as PlanPoint, Polygon};
use glam::DVec3;
use std::collections::{BTreeMap, BTreeSet};
use topo_reconstruct::config::ReconstructionConfig;
use topo_reconstruct::geometry::attachment::{
    Candidate, Conclusion, ConstraintPlace, PlaceMeasure, Settlement, SpanGaps, SpanPlace, TrialMeasure, add_point,
    conclude_search, consider_trial, does_surface_take, is_place_safe, missing_of_node, move_constraint,
    name_panels, no_trial, order_by_node, release, rescale, same_hypotheses, settle_group,
};
use topo_reconstruct::geometry::bar_contacts::{
    Anchor, AnchorRef, AxisFit, BarContactSummary, BarSolution, ChoiceMeasure, ContactQuality, CoupledPlaneSearch,
    Crossing, CrossingMeasure, MissingSurfaceContact, NodePanels, PanelIncidence, PartialChoice, PlaceCandidate,
    RotationTrial, SolutionMeasure, SurfaceAnchorMeasurement, add_crossing, anchor_groups, choose_point,
    classify_crossing, coincident, contact_quality, contact_sources, infer_incidence, is_at_rest, iteration_limit,
    leaders, note_attached, note_crossing, note_gap, note_iteration, order_anchors, order_constraints, order_points,
    reject, relax, relaxes_now, source_incidence, start_search, take_axis_fit,
};
use topo_reconstruct::geometry::plane_fit::{FitMeasure, group_panel, rank_proposals, takes_fit, withdraw};
use topo_reconstruct::geometry::topology::{
    EdgeCut, EdgeNearness, Graph, MergeMeasure, Overlap, PanelCheck, SnapMeasure, TopologySummary, connections,
    count_pairs, is_cut, order_by_distance, take_spaced, valid,
};
use topo_reconstruct::geometry::utils::NodeNames;
use topo_reconstruct::input::{ElementData, MeshData, Point};
use topo_reconstruct::models::{BarConstraint, BarPropertySpan, BarType, MacroBar, MacroPanel, PanelType};
use topo_reconstruct::ordering::sorted_indices;
use topo_reconstruct::reconstructors::bars::classify_bar;
use topo_reconstruct::reconstructors::panels::{RingMeasure, RingRelations, order_valid_rings, outer_ring};
use topo_reconstruct::scalar::Scalar;

/// Distances below this are rounding.
const EPS: f64 = 1e-8;

fn scalar(value: f64) -> Scalar {
    Scalar { bits: value.to_bits() }
}

fn number(value: Scalar) -> f64 {
    f64::from_bits(value.bits)
}

fn scalars(values: impl IntoIterator<Item = f64>) -> Vec<Scalar> {
    values.into_iter().map(scalar).collect()
}

fn point(v: DVec3) -> Point {
    [scalar(v.x), scalar(v.y), scalar(v.z)]
}

fn vector(p: &Point) -> DVec3 {
    DVec3::new(number(p[0]), number(p[1]), number(p[2]))
}

/// An orthonormal basis of the plane across a normal.
fn plane_basis(normal: DVec3) -> (DVec3, DVec3) {
    let norm = normal.normalize();
    let u = if norm.z.abs() < 0.9 {
        norm.cross(DVec3::Z).normalize()
    } else {
        norm.cross(DVec3::X).normalize()
    };
    (u, norm.cross(u).normalize())
}

fn planar_ring(points: &[DVec3], u: DVec3, v: DVec3) -> LineString<f64> {
    let mut coords: Vec<(f64, f64)> = points.iter().map(|p| (p.dot(u), p.dot(v))).collect();
    if let Some(&first) = coords.first() {
        coords.push(first);
    }
    LineString::from(coords)
}

fn planar_polygon(rings: &[Vec<DVec3>], u: DVec3, v: DVec3) -> Polygon<f64> {
    Polygon::new(
        planar_ring(&rings[0], u, v),
        rings[1..].iter().map(|r| planar_ring(r, u, v)).collect(),
    )
}

/// The nearest point of a segment and its parameter.
fn on_segment(p: DVec3, a: DVec3, b: DVec3) -> (DVec3, f64) {
    let d = b - a;
    if d.length_squared() < EPS * EPS {
        return (a, 0.0);
    }
    let t = ((p - a).dot(d) / d.length_squared()).clamp(0.0, 1.0);
    (a + t * d, t)
}

/// The point nearest to `start` on all planes `n·p + d = 0`, found by orthogonalizing
/// the equations rather than inverting a nearly singular matrix.
fn meet_planes(start: DVec3, planes: &[(DVec3, f64)]) -> Option<DVec3> {
    let mut basis: Vec<(DVec3, f64)> = Vec::new();
    for &(normal, d) in planes {
        let mut n = normal;
        let mut rhs = -d - n.dot(start);
        for &(u, e) in &basis {
            let weight = n.dot(u);
            n -= weight * u;
            rhs -= weight * e;
        }
        let length = n.length();
        if length < EPS {
            if rhs.abs() > EPS {
                return None;
            }
        } else {
            basis.push((n / length, rhs / length));
        }
    }
    let p = start + basis.iter().map(|(n, d)| *n * *d).sum::<DVec3>();
    p.is_finite().then_some(p)
}

/// Whether `inner` lies strictly inside `outer`.
fn strictly_inside(outer: &Polygon<f64>, inner: &Polygon<f64>) -> bool {
    outer.contains(inner) && !outer.exterior().intersects(inner.exterior())
}

fn ring_measure(ring: &[DVec3], u: DVec3, v: DVec3) -> (RingMeasure, Polygon<f64>) {
    let line = planar_ring(ring, u, v);
    let finite = line.0.iter().all(|c| c.x.is_finite() && c.y.is_finite());
    let segments: Vec<_> = line.lines().collect();
    let mut simple = finite;
    for i in 0..segments.len() {
        simple &= segments[i].start != segments[i].end;
        for j in i + 1..segments.len() {
            let neighbours = j == i + 1 || (i == 0 && j == segments.len() - 1);
            simple &= neighbours || !simple || !segments[i].intersects(&segments[j]);
        }
    }
    let polygon = Polygon::new(line, Vec::new());
    let measure = RingMeasure {
        points: ring.len(),
        finite,
        simple,
        area: scalar(polygon.unsigned_area()),
        positive: polygon.signed_area() > 0.0,
    };
    (measure, polygon)
}

/// Puts the outer contour first and turns the contours the right way round, where
/// they form a polygon with holes.
fn arrange_rings(rings: Vec<Vec<DVec3>>, u: DVec3, v: DVec3) -> Option<Vec<Vec<DVec3>>> {
    if rings.iter().any(|r| r.len() < 3) {
        return None;
    }
    let (measures, mut polygons): (Vec<RingMeasure>, Vec<Polygon<f64>>) =
        rings.iter().map(|r| ring_measure(r, u, v)).unzip();
    let outer = outer_ring(&measures)?;
    polygons.swap(0, outer);
    let relations = RingRelations {
        inside: polygons.iter().map(|p| strictly_inside(&polygons[0], p)).collect(),
        clear: (0..polygons.len())
            .map(|i| (0..i).map(|j| !polygons[i].intersects(&polygons[j])).collect())
            .collect(),
    };
    let places = order_valid_rings(&measures, outer, &relations)?;
    Some(
        places
            .iter()
            .map(|place| {
                let mut ring = rings[place.ring].clone();
                if place.reversed {
                    ring.reverse();
                }
                ring
            })
            .collect(),
    )
}

/// The vertical share of a direction.
fn rise(start: DVec3, end: DVec3) -> f64 {
    let d = end - start;
    (d.z / d.length()).abs()
}

type Rings = Vec<Vec<DVec3>>;

fn rings_of(panel: &MacroPanel) -> Rings {
    panel.polygons.iter().map(|r| r.iter().map(vector).collect()).collect()
}

fn plane_of(panel: &MacroPanel) -> (DVec3, f64) {
    (vector(&panel.plane_normal), number(panel.plane_d))
}

fn coplanar(a: (DVec3, f64), b: (DVec3, f64)) -> bool {
    let sign = if a.0.dot(b.0) >= 0.0 { 1.0 } else { -1.0 };
    (a.0 - b.0 * sign).length() < EPS && (a.1 - b.1 * sign).abs() < EPS
}

fn overlap(a: &Rings, b: &Rings, normal: DVec3) -> f64 {
    let (u, v) = plane_basis(normal);
    planar_polygon(a, u, v).intersection(&planar_polygon(b, u, v)).unsigned_area()
}

fn signed_area(points: &[DVec3], normal: DVec3) -> f64 {
    let origin = points[0];
    (0..points.len())
        .map(|k| (points[k] - origin).cross(points[(k + 1) % points.len()] - origin).dot(normal))
        .sum()
}

/// What a set of panels looked like at first.
struct Baseline {
    planes: Vec<(DVec3, f64)>,
    rings: Vec<Rings>,
    overlaps: BTreeMap<(usize, usize), f64>,
    min_edge: f64,
}

impl Baseline {
    fn new(panels: &[MacroPanel], planes: Vec<(DVec3, f64)>, min_edge: f64) -> Self {
        let rings: Vec<Rings> = panels.iter().map(rings_of).collect();
        let mut overlaps = BTreeMap::new();
        for i in 0..panels.len() {
            for j in i + 1..panels.len() {
                // Panels that come to lie in one plane had no overlap before.
                if coplanar(planes[i], planes[j]) {
                    let before = coplanar(plane_of(&panels[i]), plane_of(&panels[j]));
                    let area = if before { overlap(&rings[i], &rings[j], planes[i].0) } else { 0.0 };
                    overlaps.insert((i, j), area);
                }
            }
        }
        Baseline { planes, rings, overlaps, min_edge }
    }

    fn check(&self, i: usize, rings: &Rings) -> PanelCheck {
        let (normal, d) = self.planes[i];
        let (u, v) = plane_basis(normal);
        let mut edges = Vec::new();
        for (ring, original) in rings.iter().zip(&self.rings[i]) {
            for k in 0..ring.len() {
                let length = ring[k].distance(ring[(k + 1) % ring.len()]);
                let old = original[k].distance(original[(k + 1) % original.len()]);
                edges.push([scalar(length + EPS), scalar(old.min(self.min_edge))]);
            }
        }
        PanelCheck {
            residuals: scalars(rings.iter().flatten().map(|p| (normal.dot(*p) + d).abs())),
            orientations: scalars(
                rings
                    .iter()
                    .zip(&self.rings[i])
                    .map(|(a, b)| signed_area(a, normal) * signed_area(b, normal)),
            ),
            edges,
            rings_ordered: arrange_rings(rings.clone(), u, v).is_some(),
        }
    }

    fn valid(&self, rings: &dyn Fn(usize) -> Rings, affected: &BTreeSet<usize>) -> bool {
        let checks: Vec<PanelCheck> = affected.iter().map(|&i| self.check(i, &rings(i))).collect();
        let overlaps: Vec<Overlap> = self
            .overlaps
            .iter()
            .filter(|((i, j), _)| affected.contains(i) || affected.contains(j))
            .map(|(&(i, j), old)| Overlap {
                allowed: scalar(old + 1e-9),
                now: scalar(overlap(&rings(i), &rings(j), self.planes[i].0)),
            })
            .collect();
        valid(&checks, &overlaps, &scalar(EPS))
    }
}

/// The rings of a panel with some vertices elsewhere.
fn moved_rings(graph: &Graph, panel: usize, moved: &BTreeMap<usize, DVec3>) -> Rings {
    graph.boundary()[panel]
        .iter()
        .map(|ring| {
            ring.iter()
                .map(|&id| {
                    let root = graph.root(id);
                    moved.get(&root).copied().unwrap_or_else(|| vector(&graph.point(root)))
                })
                .collect()
        })
        .collect()
}

fn merge(graph: &mut Graph, base: &Baseline, a: usize, b: usize, tolerance: f64) -> bool {
    let Some(owners) = graph.merge_owners(a, b) else {
        return false;
    };
    let (x, y) = (graph.root(a), graph.root(b));
    let middle = (vector(&graph.point(x)) + vector(&graph.point(y))) * 0.5;
    let planes: Vec<_> = owners.iter().map(|&i| base.planes[i]).collect();
    let target = meet_planes(middle, &planes)
        .filter(|p| planes.iter().all(|(n, d)| (n.dot(*p) + d).abs() <= EPS));
    let mut measure = MergeMeasure {
        point: target.map(point),
        spreads: Vec::new(),
        limit: scalar(tolerance + EPS),
        valid: false,
    };
    if let Some(p) = target {
        measure.spreads = scalars(
            graph.origins_of(x).iter().chain(graph.origins_of(y)).map(|o| vector(o).distance(p)),
        );
        let moved = BTreeMap::from([(x, p), (y, p)]);
        let affected = owners.iter().copied().collect();
        measure.valid = base.valid(&|i| moved_rings(graph, i, &moved), &affected);
    }
    graph.merge(a, b, &measure)
}

fn snap(graph: &mut Graph, base: &Baseline, vertex: usize, a: usize, b: usize, target: usize, tolerance: f64) -> bool {
    if !graph.may_snap(vertex, a, b, target) {
        return false;
    }
    let (v, x, y) = (graph.root(vertex), graph.root(a), graph.root(b));
    let (pv, pa, pb) = (vector(&graph.point(v)), vector(&graph.point(x)), vector(&graph.point(y)));
    let (near, t) = on_segment(pv, pa, pb);
    let mut measure = SnapMeasure {
        t: scalar(t),
        distance: scalar(near.distance(pv)),
        tolerance: scalar(tolerance),
        point: None,
        ends: None,
        spreads: Vec::new(),
        limit: scalar(tolerance + EPS),
        pieces: [scalar(0.0); 2],
        shortest: scalar(base.min_edge),
        residuals: Vec::new(),
        precision: scalar(EPS),
        valid: false,
    };
    let mut required: BTreeSet<usize> = graph.owners_of(v).iter().copied().collect();
    required.insert(target);
    let planes: Vec<_> = required.iter().map(|&i| base.planes[i]).collect();
    if let Some((p, ends)) = snap_target(graph, base, [v, x, y], [pv, pa, pb], t, &required) {
        let (qa, qb) = ends.unwrap_or((pa, pb));
        measure.point = Some(point(p));
        measure.ends = ends.map(|(a, b)| [point(a), point(b)]);
        measure.pieces = [scalar(p.distance(qa)), scalar(p.distance(qb))];
        measure.residuals = scalars(planes.iter().map(|(n, d)| (n.dot(p) + d).abs()));
        let mut moved = BTreeMap::from([(v, p)]);
        if ends.is_some() {
            moved.insert(x, qa);
            moved.insert(y, qb);
        }
        measure.spreads = scalars(
            moved
                .iter()
                .flat_map(|(&id, q)| graph.origins_of(id).iter().map(|o| vector(o).distance(*q)).collect::<Vec<_>>()),
        );
        let affected: BTreeSet<usize> =
            moved.keys().flat_map(|&id| graph.owners_of(id).iter().copied().collect::<Vec<_>>()).collect();
        measure.valid = base.valid(&|i| moved_rings(graph, i, &moved), &affected);
    }
    graph.snap_to_edge(vertex, a, b, target, &measure)
}

/// Where a vertex goes on an edge: along the edge to all planes at once, or, where
/// that is impossible, onto the edge after its ends have moved.
fn snap_target(
    graph: &Graph,
    base: &Baseline,
    ids: [usize; 3],
    points: [DVec3; 3],
    t: f64,
    required: &BTreeSet<usize>,
) -> Option<(DVec3, Option<(DVec3, DVec3)>)> {
    let [pv, pa, pb] = points;
    let delta = pb - pa;
    let mut exact: Option<f64> = None;
    let mut possible = true;
    for &owner in required {
        let (n, d) = base.planes[owner];
        let distance = n.dot(pa) + d;
        let denominator = n.dot(delta);
        if denominator.abs() < EPS {
            possible &= distance.abs() <= EPS;
        } else {
            let value = -distance / denominator;
            possible &= exact.is_none_or(|old| (value - old).abs() * delta.length() <= EPS);
            exact = Some(value);
        }
        if !possible {
            break;
        }
    }
    if possible {
        let t = exact.unwrap_or(t);
        return (t > 0.0 && t < 1.0).then(|| (pa + t * delta, None));
    }
    let mut ends = [DVec3::ZERO; 2];
    for (k, (id, p)) in [(ids[1], pa), (ids[2], pb)].into_iter().enumerate() {
        let owners: BTreeSet<usize> =
            graph.owners_of(id).iter().copied().chain(required.iter().copied()).collect();
        let planes: Vec<_> = owners.iter().map(|&i| base.planes[i]).collect();
        ends[k] = meet_planes(p, &planes)
            .filter(|q| planes.iter().all(|(n, d)| (n.dot(*q) + d).abs() <= EPS))?;
    }
    let (p, t) = on_segment(pv, ends[0], ends[1]);
    (t > 0.0 && t < 1.0).then_some((p, Some((ends[0], ends[1]))))
}

fn nearness(graph: &Graph, id: usize, a: usize, b: usize) -> EdgeNearness {
    let place = |id: usize| vector(&graph.point(id));
    let (p, t) = on_segment(place(id), place(a), place(b));
    EdgeNearness { t: scalar(t), distance: scalar(p.distance(place(id))) }
}

/// Makes the boundaries of panels meet in common vertices and edges.
fn conform_panels(panels: &mut [MacroPanel], config: &ReconstructionConfig) -> TopologySummary {
    let tolerance = number(config.joint_tol);
    let min_edge = number(config.min_edge);
    let base = Baseline::new(panels, panels.iter().map(plane_of).collect(), min_edge);
    let polygons: Vec<_> = panels.iter().map(|p| p.polygons.clone()).collect();
    let mut graph = Graph::new(&polygons);
    let mut stats = TopologySummary::default();
    let place = |graph: &Graph, id: usize| vector(&graph.point(id));
    let n = graph.len();
    let mut pairs = Vec::new();
    for i in 0..n {
        for j in i + 1..n {
            let distance = place(&graph, i).distance(place(&graph, j));
            if graph.is_merge_candidate(i, j, &scalar(distance), &config.joint_tol) {
                pairs.push((distance, i, j));
            }
        }
    }
    for k in order_by_distance(&scalars(pairs.iter().map(|p| p.0))) {
        if merge(&mut graph, &base, pairs[k].1, pairs[k].2, tolerance) {
            stats.merged_vertices += 1;
        }
    }
    let edges = graph.edges();
    let mut candidates = Vec::new();
    for id in 0..n {
        for e in &edges {
            let near = nearness(&graph, id, e.a, e.b);
            if graph.is_snap_candidate(id, e, &near, &config.joint_tol) {
                candidates.push((near.distance, id, *e));
            }
        }
    }
    for k in order_by_distance(&candidates.iter().map(|c| c.0).collect()) {
        let (_, id, e) = candidates[k];
        if snap(&mut graph, &base, id, e.a, e.b, e.panel, tolerance) {
            stats.snapped_junctions += 1;
        }
    }
    stats.inserted_vertices = node_boundaries(&mut graph, min_edge);
    let edges = graph.edges();
    let lists = connections(&edges, panels.len());
    stats.connected_panel_pairs = count_pairs(&lists);
    let mut displacement = 0.0_f64;
    for id in (0..n).filter(|&id| graph.root(id) == id) {
        let p = place(&graph, id);
        displacement = graph.origins_of(id).iter().map(|o| vector(o).distance(p)).fold(displacement, f64::max);
        for e in &edges {
            let near = nearness(&graph, id, e.a, e.b);
            if graph.is_unresolved(id, e, &near, &scalar(EPS), &config.joint_tol) {
                stats.unresolved_near_junctions += 1;
            }
        }
    }
    stats.max_displacement = scalar(displacement);
    let ids: Vec<u32> = panels.iter().map(|p| p.id).collect();
    for (i, panel) in panels.iter_mut().enumerate() {
        panel.polygons = moved_rings(&graph, i, &BTreeMap::new())
            .into_iter()
            .map(|r| r.into_iter().map(point).collect())
            .collect();
        panel.connected_panel_ids = lists[i].iter().map(|&j| ids[j]).collect();
        panel.connected_panel_ids.sort_unstable();
    }
    stats
}

/// Puts the vertices that lie on an edge into it. Returns how many there were.
fn node_boundaries(graph: &mut Graph, min_edge: f64) -> usize {
    let roots: Vec<usize> = (0..graph.len()).filter(|&id| graph.root(id) == id).collect();
    let place = |id: usize| vector(&graph.point(id));
    let mut inserted = 0;
    let mut output = Vec::new();
    for rings in graph.boundary() {
        let mut panel = Vec::new();
        for ring in rings {
            let mut result = Vec::new();
            for i in 0..ring.len() {
                let a = graph.root(ring[i]);
                let b = graph.root(ring[(i + 1) % ring.len()]);
                result.push(a);
                let on: Vec<_> = roots
                    .iter()
                    .filter(|&&id| id != a && id != b)
                    .map(|&id| (nearness(graph, id, a, b), id))
                    .filter(|(near, _)| is_cut(near, &scalar(EPS)))
                    .collect();
                let order = order_by_distance(&on.iter().map(|c| c.0.t).collect());
                let found: Vec<usize> = order.into_iter().map(|k| on[k].1).collect();
                let cuts: Vec<EdgeCut> = found
                    .iter()
                    .enumerate()
                    .map(|(k, &id)| EdgeCut {
                        vertex: id,
                        from_start: scalar(place(id).distance(place(a))),
                        to_end: scalar(place(id).distance(place(b))),
                        to_earlier: scalars(found[..k].iter().map(|&other| place(id).distance(place(other)))),
                    })
                    .collect();
                for k in take_spaced(&cuts, &scalar(min_edge)) {
                    result.push(cuts[k].vertex);
                    inserted += 1;
                }
            }
            panel.push(result);
        }
        output.push(panel);
    }
    graph.replace_rings(output);
    inserted
}

/// Panels on other planes. Vertices that panels share stay shared. Where a vertex has
/// no place within the budget, or a panel does not stay valid, the panels concerned
/// are named instead.
fn transformed_planes(
    panels: &[MacroPanel],
    normals: &[DVec3],
    offsets: &[f64],
    config: &ReconstructionConfig,
) -> Result<Vec<Rings>, BTreeSet<usize>> {
    let planes: Vec<(DVec3, f64)> = normals.iter().copied().zip(offsets.iter().copied()).collect();
    let base = Baseline::new(panels, planes.clone(), number(config.min_edge));
    let mut shared: Vec<(DVec3, BTreeSet<usize>)> = Vec::new();
    let mut names: Vec<Vec<Vec<usize>>> = Vec::new();
    for (i, rings) in base.rings.iter().enumerate() {
        names.push(
            rings
                .iter()
                .map(|ring| {
                    ring.iter()
                        .map(|p| match shared.iter().position(|(q, _)| q.distance(*p) <= EPS) {
                            Some(k) => {
                                shared[k].1.insert(i);
                                k
                            }
                            None => {
                                shared.push((*p, BTreeSet::from([i])));
                                shared.len() - 1
                            }
                        })
                        .collect()
                })
                .collect(),
        );
    }
    let mut affected = BTreeSet::new();
    let mut moved = Vec::new();
    for (p, owners) in &shared {
        let own: Vec<_> = owners.iter().map(|&i| planes[i]).collect();
        match meet_planes(*p, &own).filter(|q| q.distance(*p) <= number(config.joint_tol) + EPS) {
            Some(q) => moved.push(q),
            None => {
                affected.extend(owners);
                moved.push(*p);
            }
        }
    }
    if !affected.is_empty() {
        return Err(affected);
    }
    let result: Vec<Rings> = names
        .iter()
        .map(|rings| rings.iter().map(|r| r.iter().map(|&k| moved[k]).collect()).collect())
        .collect();
    for i in 0..panels.len() {
        if !base.valid(&|j| result[j].clone(), &BTreeSet::from([i])) {
            affected.insert(i);
        }
    }
    if affected.is_empty() {
        Ok(result)
    } else {
        Err(affected)
    }
}

/// The plane of least squares through points, by Jacobi rotations of their
/// covariance. A single straight line does not determine one.
fn fit(points: &[DVec3], reference: DVec3) -> Option<(DVec3, f64)> {
    if points.len() < 3 {
        return None;
    }
    let center = points.iter().copied().sum::<DVec3>() / points.len() as f64;
    let mut a = [[0.0; 3]; 3];
    let mut v = [[1.0, 0.0, 0.0], [0.0, 1.0, 0.0], [0.0, 0.0, 1.0]];
    for p in points {
        let d = (*p - center).to_array();
        for i in 0..3 {
            for j in 0..3 {
                a[i][j] += d[i] * d[j];
            }
        }
    }
    let scale = a[0][0] + a[1][1] + a[2][2];
    if scale <= 1e-20 {
        return None;
    }
    for _ in 0..40 {
        let (p, q) = [(0, 1), (0, 2), (1, 2)]
            .into_iter()
            .max_by(|&(p, q): &(usize, usize), &(i, j): &(usize, usize)| a[p][q].abs().total_cmp(&a[i][j].abs()))?;
        if a[p][q].abs() < scale * 1e-14 {
            break;
        }
        let angle = 0.5 * (2.0 * a[p][q]).atan2(a[q][q] - a[p][p]);
        let (c, s) = (angle.cos(), angle.sin());
        let (app, aqq, apq) = (a[p][p], a[q][q], a[p][q]);
        a[p][p] = c * c * app - 2.0 * c * s * apq + s * s * aqq;
        a[q][q] = s * s * app + 2.0 * c * s * apq + c * c * aqq;
        a[p][q] = 0.0;
        a[q][p] = 0.0;
        for k in 0..3 {
            if k != p && k != q {
                let (x, y) = (a[k][p], a[k][q]);
                a[k][p] = c * x - s * y;
                a[p][k] = a[k][p];
                a[k][q] = s * x + c * y;
                a[q][k] = a[k][q];
            }
            let (x, y) = (v[k][p], v[k][q]);
            v[k][p] = c * x - s * y;
            v[k][q] = s * x + c * y;
        }
    }
    let mut order = [0, 1, 2];
    order.sort_by(|&i: &usize, &j: &usize| a[i][i].total_cmp(&a[j][j]));
    if a[order[1]][order[1]] < scale * 1e-10 {
        return None;
    }
    let k = order[0];
    let mut n = DVec3::new(v[0][k], v[1][k], v[2][k]).normalize();
    if n.dot(reference) < 0.0 {
        n = -n;
    }
    Some((n, -n.dot(center)))
}

fn turned(panels: &[MacroPanel], normals: &[DVec3], offsets: &[f64], config: &ReconstructionConfig) -> Result<Vec<MacroPanel>, BTreeSet<usize>> {
    let rings = transformed_planes(panels, normals, offsets, config)?;
    Ok(panels
        .iter()
        .zip(rings)
        .enumerate()
        .map(|(i, (panel, own))| {
            let mut moved = panel.clone();
            moved.plane_normal = point(normals[i]);
            moved.plane_d = scalar(offsets[i]);
            moved.polygons = own.into_iter().map(|r| r.into_iter().map(point).collect()).collect();
            moved
        })
        .collect())
}

/// Panels on fitted planes, each set with the number of panels that were turned.
fn proposals(
    bars: &[MacroBar],
    panels: &[MacroPanel],
    mesh: &MeshData,
    names: &NodeNames,
    config: &ReconstructionConfig,
) -> Vec<(Vec<MacroPanel>, usize)> {
    let planes: Vec<(DVec3, f64)> =
        panels.iter().map(|p| (vector(&p.plane_normal), number(p.plane_d))).collect();
    let mut groups: Vec<Vec<usize>> = Vec::new();
    for i in 0..panels.len() {
        let same: Vec<bool> = groups
            .iter()
            .map(|g| planes[i].0.distance(planes[g[0]].0) < 1e-8 && (planes[i].1 - planes[g[0]].1).abs() < 1e-8)
            .collect();
        group_panel(&mut groups, i, &same);
    }
    let samples = samples(bars, panels, &groups, &planes, mesh, names, number(config.joint_tol));
    let mut normals: Vec<DVec3> = planes.iter().map(|p| p.0).collect();
    let mut offsets: Vec<f64> = planes.iter().map(|p| p.1).collect();
    let (plain_normals, plain_offsets) = (normals.clone(), offsets.clone());
    let mut fitted = Vec::new();
    let mut active = Vec::new();
    for (g, indices) in groups.iter().enumerate() {
        let (old, old_d) = planes[indices[0]];
        let Some((n, d)) = fit(&samples[g], old) else {
            continue;
        };
        let spread = |n: DVec3, d: f64| samples[g].iter().map(|q| (n.dot(*q) + d).powi(2)).sum::<f64>();
        let gain = spread(old, old_d) - spread(n, d);
        let measure = FitMeasure {
            turn: scalar(n.dot(old)),
            least_turn: scalar(number(config.tol_angle).cos()),
            gain: scalar(gain),
            change: scalar(n.distance(old)),
            residuals: scalars(
                indices
                    .iter()
                    .flat_map(|&i| panels[i].polygons.iter().flatten())
                    .map(|q| (n.dot(vector(q)) + d).abs()),
            ),
            tolerance: config.joint_tol,
        };
        if takes_fit(&measure) {
            fitted.push((g, gain));
            for &i in indices {
                normals[i] = n;
                offsets[i] = d;
                active.push(i);
            }
        }
    }
    active.sort_unstable();
    let mut candidates = Vec::new();
    for k in rank_proposals(&scalars(fitted.iter().map(|f| f.1))) {
        let group = &groups[fitted[k].0];
        let (mut ns, mut ds) = (plain_normals.clone(), plain_offsets.clone());
        for &i in group {
            ns[i] = normals[i];
            ds[i] = offsets[i];
        }
        if let Ok(result) = turned(panels, &ns, &ds, config) {
            candidates.push((result, group.len()));
        }
    }
    while !active.is_empty() {
        match turned(panels, &normals, &offsets, config) {
            Ok(result) => {
                candidates.insert(0, (result, active.len()));
                break;
            }
            Err(affected) => {
                let affected: Vec<usize> = affected.into_iter().collect();
                let left = withdraw(&active, &groups, &affected);
                if left.len() == active.len() {
                    break;
                }
                for i in active.iter().filter(|i| !left.contains(i)) {
                    normals[*i] = plain_normals[*i];
                    offsets[*i] = plain_offsets[*i];
                }
                active = left;
            }
        }
    }
    candidates
}

fn samples(
    bars: &[MacroBar],
    panels: &[MacroPanel],
    groups: &[Vec<usize>],
    planes: &[(DVec3, f64)],
    mesh: &MeshData,
    names: &NodeNames,
    tolerance: f64,
) -> Vec<Vec<DVec3>> {
    let sources = groups
        .iter()
        .map(|g| g.iter().flat_map(|&i| panels[i].source_element_ids.iter().copied()).collect())
        .collect();
    let at_node = source_incidence(&mesh.elements, &sources, names);
    let mut samples = vec![Vec::<DVec3>::new(); groups.len()];
    for b in bars {
        let a = vector(&b.start_point);
        let d = vector(&b.end_point) - a;
        let mut anchors = vec![(b.start_node_id, 0.0), (b.end_node_id, 1.0)];
        anchors.extend(b.constraints.iter().filter_map(|c| c.source_node_id.map(|n| (n, number(c.t)))));
        for (n, t) in anchors {
            for &g in at_node.get(n).into_iter().flatten() {
                let p = a + t * d;
                let (normal, offset) = planes[groups[g][0]];
                if (normal.dot(p) + offset).abs() <= tolerance && samples[g].iter().all(|q| p.distance(*q) > 1e-7) {
                    samples[g].push(p);
                }
            }
        }
    }
    samples
}

/// The outcome of attaching bars, with what was measured on the way.
struct ContactReport {
    pub stats: BarContactSummary,
    pub rotation_trial: RotationTrial,
    pub joint_solve_converged: bool,
    pub coupled_planes_converged: bool,
    pub coupled_search: CoupledPlaneSearch,
    pub max_panel_displacement: f64,
    pub max_axis_fit_displacement: f64,
    pub max_displacement: f64,
    pub max_joint_gap: f64,
    pub missing_surface_contacts: Vec<MissingSurfaceContact>,
}

fn plane(panel: &MacroPanel) -> (DVec3, f64) {
    (vector(&panel.plane_normal), number(panel.plane_d))
}

fn ends(bar: &MacroBar) -> [DVec3; 2] {
    [vector(&bar.start_point), vector(&bar.end_point)]
}

fn set_ends(bar: &mut MacroBar, a: DVec3, b: DVec3) {
    bar.start_point = point(a);
    bar.end_point = point(b);
    bar.length = scalar(a.distance(b));
    bar.bar_type = classify_bar(&scalar(rise(a, b)));
}

fn anchor_point(bar: &MacroBar, anchor: Anchor) -> DVec3 {
    let [a, b] = ends(bar);
    match anchor {
        Anchor::Start => a,
        Anchor::End => b,
        Anchor::Interior(i) => a + number(bar.constraints[i].t) * (b - a),
    }
}

fn panel_points(panel: &MacroPanel) -> Vec<DVec3> {
    panel.constraint_points.iter().chain(panel.polygons.iter().flatten()).map(vector).collect()
}

fn nearest_boundary(panel: &MacroPanel, p: DVec3) -> DVec3 {
    let mut best = p;
    let mut distance = f64::INFINITY;
    for ring in &panel.polygons {
        for i in 0..ring.len() {
            let a = vector(&ring[i]);
            let d = vector(&ring[(i + 1) % ring.len()]) - a;
            if d.length_squared() <= EPS * EPS {
                continue;
            }
            let q = a + ((p - a).dot(d) / d.length_squared()).clamp(0.0, 1.0) * d;
            if q.distance(p) < distance {
                best = q;
                distance = q.distance(p);
            }
        }
    }
    best
}

fn contains(panel: &MacroPanel, p: DVec3) -> bool {
    let (normal, d) = plane(panel);
    if (normal.dot(p) + d).abs() > EPS {
        return false;
    }
    let (u, v) = plane_basis(normal);
    let rings: Vec<Vec<DVec3>> = panel.polygons.iter().map(|r| r.iter().map(vector).collect()).collect();
    planar_polygon(&rings, u, v).intersects(&PlanPoint::new(p.dot(u), p.dot(v)))
        || nearest_boundary(panel, p).distance(p) <= EPS
}

fn infer(bars: &[MacroBar], panels: &[MacroPanel], incident: &mut PanelIncidence, config: &ReconstructionConfig, stats: &mut BarContactSummary) {
    let ids: Vec<u32> = panels.iter().map(|p| p.id).collect();
    for group in anchor_groups(&bars.to_vec()) {
        let points: Vec<DVec3> = group.anchors.iter().map(|a| anchor_point(&bars[a.bar], a.anchor)).collect();
        let fits: Vec<bool> = panels
            .iter()
            .map(|panel| {
                let (n, d) = plane(panel);
                points.iter().all(|p| {
                    let distance = n.dot(*p) + d;
                    distance.abs() <= number(config.joint_tol) && contains(panel, *p - distance * n)
                })
            })
            .collect();
        let mut clashes = Vec::new();
        for i in (0..panels.len()).filter(|&i| fits[i]) {
            for j in (i + 1..panels.len()).filter(|&j| fits[j]) {
                let ((a, da), (b, db)) = (plane(&panels[i]), plane(&panels[j]));
                let apart = points
                    .iter()
                    .any(|p| (*p - a * (a.dot(*p) + da)).distance(*p - b * (b.dot(*p) + db)) > EPS);
                if a.dot(b).abs() >= number(config.tol_angle).cos() && apart {
                    clashes.push((i, j));
                }
            }
        }
        infer_incidence(incident, stats, group.node, &fits, &clashes, &ids);
    }
}

fn fit_axes(bars: &mut [MacroBar], panels: &[MacroPanel], incident: &PanelIncidence, config: &ReconstructionConfig, stats: &mut BarContactSummary) -> f64 {
    let tolerance = number(config.joint_tol);
    let mut greatest = 0.0_f64;
    for bar in bars {
        let [a, b] = ends(bar);
        let direction = (b - a).normalize();
        let indices: BTreeSet<usize> = bar
            .source_node_ids
            .iter()
            .filter_map(|&node| incident.get(node))
            .flatten()
            .copied()
            .filter(|&j| {
                let (n, d) = plane(&panels[j]);
                n.dot(direction).abs() < number(config.tol_angle).sin()
                    && (n.dot(a) + d).abs() <= tolerance
                    && (n.dot(b) + d).abs() <= tolerance
            })
            .collect();
        if indices.is_empty() {
            continue;
        }
        let planes: Vec<_> = indices.iter().map(|&j| plane(&panels[j])).collect();
        let (Some(x), Some(y)) = (meet_planes(a, &planes), meet_planes(b, &planes)) else {
            continue;
        };
        let fit = AxisFit {
            movements: [scalar(x.distance(a)), scalar(y.distance(b))],
            limit: config.joint_tol,
            length: scalar(x.distance(y) + EPS),
            required: scalar(a.distance(b).min(number(config.min_edge))),
            direction: scalar((y - x).dot(b - a)),
        };
        if take_axis_fit(stats, &fit) {
            greatest = greatest.max(x.distance(a)).max(y.distance(b));
            set_ends(bar, x, y);
        }
    }
    greatest
}

type Joints = BTreeMap<u32, Vec<(usize, f64)>>;

fn joints_of(bars: &[MacroBar]) -> Joints {
    let place = |a: &AnchorRef| match a.anchor {
        Anchor::Start => (a.bar, 0.0),
        Anchor::End => (a.bar, 1.0),
        Anchor::Interior(k) => (a.bar, number(bars[a.bar].constraints[k].t)),
    };
    anchor_groups(&bars.to_vec()).iter().map(|g| (g.node, g.anchors.iter().map(place).collect())).collect()
}

fn at(points: &[DVec3], (i, t): (usize, f64)) -> DVec3 {
    points[2 * i] * (1.0 - t) + points[2 * i + 1] * t
}

/// Alternating projections onto shared-node equations and displacement balls. Axis
/// ends and interior fractions move; no vertices are added. Without panels only the
/// axes take part.
fn reconcile(
    bars: &mut Vec<MacroBar>,
    original: &[[DVec3; 2]],
    config: &ReconstructionConfig,
    panels: &mut Vec<MacroPanel>,
    incident: &PanelIncidence,
    search: &mut CoupledPlaneSearch,
) -> bool {
    let tolerance = number(config.joint_tol);
    let mut joints = joints_of(bars);
    let center = original.iter().flatten().copied().sum::<DVec3>() / (original.len() * 2).max(1) as f64;
    let quantize = |x: f64| (x * 1e6).round() as i64;
    let mut nodes: Vec<u32> = joints.keys().copied().collect();
    if !panels.is_empty() {
        for anchors in joints.values_mut() {
            anchors.sort_by_key(|&(i, _)| {
                let d = original[i][1] - original[i][0];
                let m = (original[i][0] + original[i][1]) * 0.5 - center;
                (-quantize(d.length_squared()), quantize(m.length_squared()), quantize(d.dot(m).abs()))
            });
        }
        nodes.sort_by_key(|node| {
            let anchors = &joints[node];
            let p = anchors.iter().map(|&(i, t)| original[i][0].lerp(original[i][1], t)).sum::<DVec3>()
                / anchors.len() as f64;
            quantize(p.distance_squared(center))
        });
    }
    let fractions: BTreeMap<(u32, usize), f64> =
        joints.iter().flat_map(|(&n, a)| a.iter().map(move |&(i, t)| ((n, i), t))).collect();
    let origins: Vec<f64> = panels.iter().map(|p| plane(p).1).collect();
    let mut offsets = origins.clone();
    let mut frozen: Vec<usize> = Vec::new();
    let same: Vec<Vec<bool>> = (0..panels.len())
        .map(|i| {
            (0..i)
                .map(|j| {
                    let (a, b) = (plane(&panels[i]), plane(&panels[j]));
                    a.0.distance(b.0) < EPS && (a.1 - b.1).abs() < EPS
                })
                .collect()
        })
        .collect();
    let leads = leaders(&same);
    let ids: Vec<u32> = panels.iter().map(|p| p.id).collect();
    let mut surface: Vec<(u32, usize)> = Vec::new();
    for &node in &nodes {
        let (i, t) = joints[&node][0];
        let p = original[i][0] * (1.0 - t) + original[i][1] * t;
        for &j in incident.get(node).into_iter().flatten().filter(|&&j| j < panels.len()) {
            let (n, d) = plane(&panels[j]);
            if (n.dot(p) + d).abs() <= tolerance {
                surface.push((node, j));
            }
        }
    }
    *search = start_search(surface.len());
    let mut points: Vec<DVec3> = bars.iter().flat_map(ends).collect();
    let start: Vec<DVec3> = original.iter().flatten().copied().collect();
    for iteration in 0..iteration_limit(panels.len()) {
        slide(&nodes, &mut joints, &points, original, &fractions, tolerance);
        let equations = equations_of(&nodes, &joints);
        for equation in &equations {
            let norm: f64 = equation.iter().map(|(_, w)| w * w).sum();
            if norm == 0.0 {
                continue;
            }
            let residual: DVec3 = equation.iter().map(|&(i, w)| points[i] * w).sum();
            for &(i, w) in equation {
                points[i] -= residual * (w / norm);
            }
        }
        for &(node, j) in &surface {
            let (i, t) = joints[&node][0];
            let n = plane(&panels[j]).0;
            let leader = leads[j];
            let free = !frozen.contains(&leader);
            let residual = n.dot(at(&points, (i, t))) + offsets[leader];
            let step = residual / ((1.0 - t).powi(2) + t * t + if free { 1.0 } else { 0.0 });
            points[2 * i] -= n * (step * (1.0 - t));
            points[2 * i + 1] -= n * (step * t);
            if free {
                offsets[leader] -= step;
            }
        }
        for i in 0..offsets.len() {
            let leader = leads[i];
            offsets[leader] = offsets[leader].clamp(origins[leader] - tolerance, origins[leader] + tolerance);
        }
        for i in 0..offsets.len() {
            offsets[i] = offsets[leads[i]];
        }
        for (p, origin) in points.iter_mut().zip(&start) {
            let delta = *p - *origin;
            if delta.length() > tolerance {
                *p = *origin + delta.normalize() * tolerance;
            }
        }
        let axis_error = equations
            .iter()
            .map(|e| e.iter().map(|&(i, w)| points[i] * w).sum::<DVec3>().length())
            .fold(0.0, f64::max);
        let gap = |&(node, j): &(u32, usize)| {
            (plane(&panels[j]).0.dot(at(&points, joints[&node][0])) + offsets[j]).abs()
        };
        let plane_error = surface.iter().map(gap).fold(0.0, f64::max);
        let errors = (scalar(axis_error), scalar(plane_error));
        note_iteration(search, iteration, &errors.0, &errors.1);
        if relaxes_now(iteration, &errors.1, &errors.0, surface.len()) {
            let removed = relax(&scalars(worst_gaps(&surface, &joints, &points, bars.len(), &gap)));
            surface = release(search, &surface, &removed, &ids);
            if !removed.is_empty() {
                restart(&mut points, &start, &mut offsets, &origins, &mut joints, &fractions);
                continue;
            }
        }
        if is_at_rest(&errors.0, &errors.1) {
            let parameters = parameters_of(bars, &joints);
            let measure = solution(bars, original, &points, &parameters, config);
            let normals: Vec<DVec3> = panels.iter().map(|p| plane(p).0).collect();
            let candidate = transformed_planes(panels, &normals, &offsets, config)
                .map(|rings| {
                    let mut taken = Candidate { bars: bars.clone(), panels: panels.clone() };
                    take_solution(&mut taken.bars, &points, &parameters);
                    for ((panel, own), d) in taken.panels.iter_mut().zip(rings).zip(&offsets) {
                        panel.polygons = own.into_iter().map(|r| r.into_iter().map(point).collect()).collect();
                        panel.plane_d = scalar(*d);
                    }
                    taken
                })
                .map_err(|affected| affected.into_iter().collect());
            match conclude_search(search, bars, panels, &measure, candidate, &mut frozen, &leads, &ids) {
                Conclusion::Taken => return true,
                Conclusion::Failed => return false,
                Conclusion::Again => {
                    restart(&mut points, &start, &mut offsets, &origins, &mut joints, &fractions)
                }
            }
        }
    }
    false
}

fn restart(
    points: &mut [DVec3],
    start: &[DVec3],
    offsets: &mut [f64],
    origins: &[f64],
    joints: &mut Joints,
    fractions: &BTreeMap<(u32, usize), f64>,
) {
    points.copy_from_slice(start);
    offsets.copy_from_slice(origins);
    for (&node, anchors) in joints {
        for (i, t) in anchors {
            *t = fractions[&(node, *i)];
        }
    }
}

/// Slides interior incidences along their axes. Fractions that stay fixed would
/// overconstrain a network after its axes were straightened.
fn slide(
    nodes: &[u32],
    joints: &mut Joints,
    points: &[DVec3],
    original: &[[DVec3; 2]],
    fractions: &BTreeMap<(u32, usize), f64>,
    tolerance: f64,
) {
    for &node in nodes {
        let Some(anchors) = joints.get_mut(&node).filter(|a| a.len() >= 2) else {
            continue;
        };
        let target = anchors.iter().map(|&a| at(points, a)).sum::<DVec3>() / anchors.len() as f64;
        for (i, t) in anchors {
            if *t <= 0.0 || *t >= 1.0 {
                continue;
            }
            let a = points[2 * *i];
            let d = points[2 * *i + 1] - a;
            if d.length_squared() <= EPS * EPS {
                continue;
            }
            let origin = original[*i][0] + fractions[&(node, *i)] * (original[*i][1] - original[*i][0]);
            let center = (origin - a).dot(d) / d.length_squared();
            let across = origin.distance_squared(a + center * d);
            let radius = ((tolerance.powi(2) - across).max(0.0) / d.length_squared()).sqrt();
            let low = (center - radius).max(1e-10);
            let high = (center + radius).min(1.0 - 1e-10);
            if low <= high {
                *t = ((target - a).dot(d) / d.length_squared()).clamp(low, high);
            }
        }
    }
}

fn equations_of(nodes: &[u32], joints: &Joints) -> Vec<Vec<(usize, f64)>> {
    let mut equations = Vec::new();
    for node in nodes {
        let anchors = &joints[node];
        let (i, t) = anchors[0];
        for &(j, u) in &anchors[1..] {
            let mut terms = BTreeMap::<usize, f64>::new();
            for (index, value) in [(2 * i, 1.0 - t), (2 * i + 1, t), (2 * j, u - 1.0), (2 * j + 1, -u)] {
                *terms.entry(index).or_default() += value;
            }
            equations.push(terms.into_iter().filter(|(_, v)| v.abs() > 1e-14).collect());
        }
    }
    equations
}

/// How badly each incidence is met, with the joints and bars it hangs on.
fn worst_gaps(
    surface: &[(u32, usize)],
    joints: &Joints,
    points: &[DVec3],
    bars: usize,
    gap: &dyn Fn(&(u32, usize)) -> f64,
) -> Vec<f64> {
    let spread = |anchors: &Vec<(usize, f64)>| {
        let first = at(points, anchors[0]);
        anchors.iter().map(|&a| first.distance(at(points, a))).fold(0.0, f64::max)
    };
    let mut bar_errors = vec![0.0_f64; bars];
    for anchors in joints.values() {
        let own = spread(anchors);
        for &(b, _) in anchors {
            bar_errors[b] = bar_errors[b].max(own);
        }
    }
    surface
        .iter()
        .map(|e| gap(e).max(spread(&joints[&e.0])).max(bar_errors[joints[&e.0][0].0]))
        .collect()
}

fn parameters_of(bars: &[MacroBar], joints: &Joints) -> Vec<Vec<f64>> {
    bars.iter()
        .enumerate()
        .map(|(i, bar)| {
            bar.constraints
                .iter()
                .map(|c| {
                    c.source_node_id
                        .and_then(|n| joints[&n].iter().find(|(j, _)| *j == i).map(|(_, t)| *t))
                        .unwrap_or(number(c.t))
                })
                .collect()
        })
        .collect()
}

fn solution(
    bars: &[MacroBar],
    original: &[[DVec3; 2]],
    points: &[DVec3],
    parameters: &[Vec<f64>],
    config: &ReconstructionConfig,
) -> SolutionMeasure {
    let min_edge = number(config.min_edge);
    let measure = |(i, bar): (usize, &MacroBar)| {
        let d = points[2 * i + 1] - points[2 * i];
        let old = original[i][1] - original[i][0];
        let mut order: Vec<(f64, f64)> =
            bar.constraints.iter().map(|c| number(c.t)).zip(parameters[i].iter().copied()).collect();
        let moved =
            |&(s, t): &(f64, f64)| (points[2 * i] + t * d).distance(original[i][0] + s * old);
        let movements = scalars(order.iter().map(moved));
        order.extend([(0.0, 0.0), (1.0, 1.0)]);
        order.sort_by(|a, b| a.0.total_cmp(&b.0));
        let spacing = |w: &[(f64, f64)]| {
            let before = (w[1].0 - w[0].0) * old.length();
            [scalar((w[1].1 - w[0].1) * d.length() + EPS), scalar(before.min(min_edge))]
        };
        BarSolution {
            length: [scalar(d.length() + EPS), scalar(old.length().min(min_edge))],
            direction: scalar(d.dot(old)),
            parameters: scalars(parameters[i].iter().copied()),
            movements,
            spacings: order.windows(2).map(spacing).collect(),
        }
    };
    SolutionMeasure {
        bars: bars.iter().enumerate().map(measure).collect(),
        movement_limit: scalar(number(config.joint_tol) + EPS),
    }
}

fn take_solution(bars: &mut [MacroBar], points: &[DVec3], parameters: &[Vec<f64>]) {
    for (i, bar) in bars.iter_mut().enumerate() {
        for (k, &t) in parameters[i].iter().enumerate() {
            slide_constraint(bar, k, t);
        }
        set_ends(bar, points[2 * i], points[2 * i + 1]);
    }
}

fn slide_constraint(bar: &mut MacroBar, k: usize, t: f64) {
    let old = number(bar.constraints[k].t);
    let gap = |x: Scalar| scalar((number(x) - old).abs());
    let gaps = bar.property_spans.iter().map(|s| SpanGaps { start: gap(s.start_t), end: gap(s.end_t) }).collect();
    move_constraint(bar, k, scalar(t), &gaps);
}

fn update_endpoint(bar: &mut MacroBar, anchor: Anchor, p: DVec3, panel_ids: &Vec<u32>) {
    name_panels(bar, anchor, panel_ids);
    let [a, b] = ends(bar);
    let (x, y) = match anchor {
        Anchor::Start => (p, b),
        Anchor::End => (a, p),
        Anchor::Interior(_) => return,
    };
    let d = y - x;
    let parameter = |t: Scalar| scalar((a + number(t) * (b - a) - x).dot(d) / d.length_squared());
    let places = bar.constraints.iter().map(|c| parameter(c.t)).collect();
    let spans = bar
        .property_spans
        .iter()
        .map(|s| SpanPlace { start: parameter(s.start_t), end: parameter(s.end_t) })
        .collect();
    rescale(bar, &places, &spans);
    set_ends(bar, x, y);
}

/// One group of places that belong to a node.
struct Group<'a> {
    bars: &'a [MacroBar],
    panels: &'a [MacroPanel],
    config: &'a ReconstructionConfig,
    original: &'a [[DVec3; 2]],
    interior: &'a [Vec<DVec3>],
    anchors: &'a [AnchorRef],
    origin: DVec3,
}

impl Group<'_> {
    fn nearby(&self, i: usize) -> bool {
        let panel = &self.panels[i];
        let (n, d) = plane(panel);
        let q = self.origin - n * (n.dot(self.origin) + d);
        let near = if contains(panel, q) { q } else { nearest_boundary(panel, self.origin) };
        near.distance(self.origin) <= number(self.config.joint_tol)
    }

    /// Every bar stays straight and within its budget.
    fn safe(&self, p: DVec3) -> bool {
        self.anchors.iter().all(|place| {
            let bar = &self.bars[place.bar];
            let [old_a, old_b] = ends(bar);
            let along = |q: DVec3, a: DVec3, d: DVec3| {
                let t = (q - a).dot(d) / d.length_squared();
                ConstraintPlace { t: scalar(t), off_axis: scalar(q.distance(a + t * d)) }
            };
            let end = |a: DVec3, b: DVec3| PlaceMeasure::End {
                length: scalar(a.distance(b) + EPS),
                required: scalar(old_a.distance(old_b).min(number(self.config.min_edge))),
                direction: scalar((b - a).dot(old_b - old_a)),
                constraints: bar
                    .constraints
                    .iter()
                    .map(|c| along(old_a + number(c.t) * (old_b - old_a), a, b - a))
                    .collect(),
            };
            let (initial, measure) = match place.anchor {
                Anchor::Start => (self.original[place.bar][0], end(p, old_b)),
                Anchor::End => (self.original[place.bar][1], end(old_a, p)),
                Anchor::Interior(c) => {
                    let ConstraintPlace { t, off_axis } = along(p, old_a, old_b - old_a);
                    let measure = PlaceMeasure::Interior { t, low: scalar(-EPS), high: scalar(1.0 + EPS), off_axis };
                    (self.interior[place.bar][c], measure)
                }
            };
            let limit = scalar(number(self.config.joint_tol) + EPS);
            is_place_safe(&measure, &scalar(p.distance(initial)), &limit)
        })
    }

    fn accepts(&self, i: usize, p: DVec3) -> bool {
        let panel = &self.panels[i];
        let boundary = nearest_boundary(panel, p).distance(p);
        let others = panel_points(panel).into_iter().map(|q| q.distance(p));
        let gaps = std::iter::once(boundary).chain(others).map(|g| [scalar(g), scalar(g + EPS)]).collect();
        does_surface_take(contains(panel, p), &gaps, &self.config.min_edge)
    }

    fn pick(&self, indices: &[usize]) -> Result<DVec3, &'static str> {
        let mut planes: Vec<(DVec3, f64)> = indices.iter().map(|&i| plane(&self.panels[i])).collect();
        for place in self.anchors.iter().filter(|a| matches!(a.anchor, Anchor::Interior(_))) {
            let [a, b] = ends(&self.bars[place.bar]);
            let (u, v) = plane_basis((b - a).normalize());
            planes.extend([(u, -u.dot(a)), (v, -v.dot(a))]);
        }
        let mut measure = ChoiceMeasure {
            all_near: indices.iter().all(|&i| self.nearby(i)),
            projected: false,
            candidates: Vec::new(),
        };
        let mut points = Vec::new();
        if measure.all_near {
            if let Some(p) = meet_planes(self.origin, &planes) {
                measure.projected = true;
                points.push(p);
                points.extend(indices.iter().map(|&i| nearest_boundary(&self.panels[i], p)));
                points.extend(indices.iter().flat_map(|&i| panel_points(&self.panels[i])));
            }
        }
        measure.candidates = points
            .iter()
            .map(|p| PlaceCandidate {
                distance: scalar(p.distance(self.origin)),
                acceptable: self.safe(*p) && indices.iter().all(|&i| self.accepts(i, *p)),
            })
            .collect();
        choose_point(&measure).map(|k| points[k])
    }
}

/// Attaches bars to panels, keeping the better of the plain and the turned planes.
fn attach_bar_endpoints(
    bars: &mut Vec<MacroBar>,
    panels: &mut Vec<MacroPanel>,
    mesh: &MeshData,
    names: &NodeNames,
    config: &ReconstructionConfig,
) -> ContactReport {
    let first_bars = bars.to_vec();
    let first_panels = panels.to_vec();
    let mut best = attach(bars, panels, mesh, names, config);
    let missing = contact_quality(&best.stats).missing;
    let offers = proposals(bars, &first_panels, mesh, names, config);
    let attempted = offers.len();
    best.rotation_trial = no_trial(missing);
    for (mut turned, count) in offers {
        let mut trial_bars = first_bars.clone();
        let mut candidate = attach(&mut trial_bars, &mut turned, mesh, names, config);
        let max_bar = bar_movement(&first_bars, &trial_bars);
        let max_panel = panel_movement(&first_panels, &turned);
        let rotation = first_panels
            .iter()
            .zip(&turned)
            .map(|(a, b)| plane(a).0.dot(plane(b).0).clamp(-1.0, 1.0).acos())
            .fold(0.0, f64::max);
        let measure = TrialMeasure {
            proposed_panels: count,
            candidate: contact_quality(&candidate.stats),
            best: contact_quality(&best.stats),
            bar_movement: max_bar.map(scalar),
            panel_movement: scalar(max_panel),
            limit: scalar(number(config.joint_tol) + EPS),
            rotation: scalar(rotation),
        };
        let comparable = same_hypotheses(&candidate.stats, &best.stats);
        if consider_trial(&mut best.rotation_trial, missing, comparable, &measure) {
            candidate.max_displacement = max_bar.unwrap_or(candidate.max_displacement);
            candidate.max_panel_displacement = max_panel;
            candidate.rotation_trial = best.rotation_trial;
            *bars = trial_bars;
            *panels = turned;
            best = candidate;
        }
    }
    best.rotation_trial.attempted_candidates = attempted;
    best.missing_surface_contacts = measure_missing(bars, panels, &best.stats);
    best
}

fn bar_movement(before: &[MacroBar], after: &[MacroBar]) -> Option<f64> {
    let mut greatest = 0.0_f64;
    for (old, new) in before.iter().zip(after) {
        let ([a, b], [x, y]) = (ends(old), ends(new));
        greatest = greatest.max(a.distance(x)).max(b.distance(y));
        for c in old.constraints.iter().filter(|c| c.source_node_id.is_some()) {
            let other = new.constraints.iter().find(|o| o.source_node_id == c.source_node_id)?;
            greatest = greatest.max((a + number(c.t) * (b - a)).distance(x + number(other.t) * (y - x)));
        }
    }
    Some(greatest)
}

fn panel_movement(before: &[MacroPanel], after: &[MacroPanel]) -> f64 {
    before
        .iter()
        .zip(after)
        .flat_map(|(a, b)| a.polygons.iter().flatten().zip(b.polygons.iter().flatten()))
        .map(|(p, q)| vector(p).distance(vector(q)))
        .fold(0.0, f64::max)
}

fn attach(
    bars: &mut Vec<MacroBar>,
    panels: &mut Vec<MacroPanel>,
    mesh: &MeshData,
    names: &NodeNames,
    config: &ReconstructionConfig,
) -> ContactReport {
    let mut stats = BarContactSummary::new();
    let sources: Vec<Vec<u32>> = panels.iter().map(|p| p.source_element_ids.clone()).collect();
    let mut incident = source_incidence(&mesh.elements, &sources, names);
    infer(bars, panels, &mut incident, config, &mut stats);
    let original: Vec<[DVec3; 2]> = bars.iter().map(ends).collect();
    let interior: Vec<Vec<DVec3>> = bars
        .iter()
        .map(|b| (0..b.constraints.len()).map(|c| anchor_point(b, Anchor::Interior(c))).collect())
        .collect();
    let max_axis_fit_displacement = fit_axes(bars, panels, &incident, config, &mut stats);
    let before = panels.to_vec();
    let mut coupled_search = CoupledPlaneSearch::default();
    let coupled = reconcile(bars, &original, config, panels, &incident, &mut coupled_search);
    let converged =
        coupled || reconcile(bars, &original, config, &mut Vec::new(), &PanelIncidence::new(), &mut CoupledPlaneSearch::default());
    let max_panel_displacement = panel_movement(&before, panels);
    if !converged {
        for (bar, [a, b]) in bars.iter_mut().zip(&original) {
            set_ends(bar, *a, *b);
        }
    }
    let mut max_displacement =
        settle_groups(bars, panels, mesh, config, &incident, &original, &interior, &mut stats);
    for (i, bar) in bars.iter().enumerate() {
        let [a, b] = ends(bar);
        max_displacement = max_displacement.max(a.distance(original[i][0])).max(b.distance(original[i][1]));
        for c in 0..bar.constraints.len() {
            max_displacement =
                max_displacement.max(anchor_point(bar, Anchor::Interior(c)).distance(interior[i][c]));
        }
    }
    add_crossings(bars, panels, config, &mut stats);
    let mut max_joint_gap = 0.0_f64;
    for group in anchor_groups(&bars.to_vec()) {
        let places: Vec<DVec3> = group.anchors.iter().map(|a| anchor_point(&bars[a.bar], a.anchor)).collect();
        let gap = places.iter().flat_map(|p| places.iter().map(move |q| p.distance(*q))).fold(0.0, f64::max);
        max_joint_gap = max_joint_gap.max(gap);
        note_gap(&mut stats, group.node, &scalar(gap));
    }
    for panel in panels {
        order_points(&mut panel.constraint_points);
    }
    ContactReport {
        stats,
        rotation_trial: no_trial(0),
        joint_solve_converged: converged,
        coupled_planes_converged: coupled,
        coupled_search,
        max_panel_displacement,
        max_axis_fit_displacement,
        max_displacement,
        max_joint_gap,
        missing_surface_contacts: Vec::new(),
    }
}

#[allow(clippy::too_many_arguments)]
fn settle_groups(
    bars: &mut [MacroBar],
    panels: &mut [MacroPanel],
    mesh: &MeshData,
    config: &ReconstructionConfig,
    incident: &PanelIncidence,
    original: &[[DVec3; 2]],
    interior: &[Vec<DVec3>],
    stats: &mut BarContactSummary,
) -> f64 {
    let groups = anchor_groups(&bars.to_vec());
    stats.anchor_groups = groups.len();
    let places: Vec<DVec3> = mesh.nodes.ids().iter().filter_map(|&n| mesh.nodes.get(n)).map(|p| vector(&p)).collect();
    let center = places.iter().copied().sum::<DVec3>() / places.len().max(1) as f64;
    let lengths: Vec<_> = bars.iter().map(|b| b.length).collect();
    let anchors: Vec<Vec<AnchorRef>> = groups
        .iter()
        .map(|g| order_anchors(&g.anchors, &lengths).into_iter().map(|k| g.anchors[k]).collect())
        .collect();
    // The order is geometric: source numbers do not decide which joint comes first.
    let ranks: Vec<i128> = groups
        .iter()
        .zip(&anchors)
        .map(|(g, a)| {
            let p = mesh
                .nodes
                .get(g.node)
                .map(|p| vector(&p))
                .unwrap_or_else(|| anchor_point(&bars[a[0].bar], a[0].anchor));
            (p.distance_squared(center) * 1e6).round() as i64 as i128
        })
        .collect();
    let mut greatest = 0.0_f64;
    for g in sorted_indices(&ranks) {
        let node = groups[g].node;
        let ids: Vec<u32> = panels.iter().map(|p| p.id).collect();
        let group = Group {
            bars,
            panels,
            config,
            original,
            interior,
            anchors: &anchors[g],
            origin: anchor_point(&bars[anchors[g][0].bar], anchors[g][0].anchor),
        };
        let origin = group.origin;
        let indices: Vec<usize> = match incident.get(node) {
            Some(known) => known.clone(),
            None => (0..panels.len()).filter(|&i| group.nearby(i)).collect(),
        };
        let inner = anchors[g].iter().any(|a| matches!(a.anchor, Anchor::Interior(_)));
        if indices.is_empty() && !inner {
            continue;
        }
        let whole = group.pick(&indices);
        let mut options = Vec::new();
        let mut points = Vec::new();
        for &i in indices.iter().filter(|_| whole.is_err()) {
            if let Ok(p) = group.pick(&[i]) {
                let compatible =
                    indices.iter().copied().filter(|&j| group.nearby(j) && group.accepts(j, p)).collect();
                options.push(PartialChoice { compatible, distance: scalar(p.distance(origin)) });
                points.push(p);
            }
        }
        let joint = if whole.is_err() && options.is_empty() { group.pick(&[]).ok() } else { None };
        let refusal = whole.err();
        let settled =
            settle_group(stats, node, anchors[g].len(), &indices, &ids, refusal, &options, joint.is_some());
        let (taken, p) = match (settled, whole, joint) {
            (Settlement::Whole, Ok(p), _) => (indices, p),
            (Settlement::Partial(k), ..) => (options[k].compatible.clone(), points[k]),
            (Settlement::Joined, _, Some(p)) => (Vec::new(), p),
            _ => continue,
        };
        let panel_ids: Vec<u32> = taken.iter().map(|&i| ids[i]).collect();
        for place in &anchors[g] {
            if let Anchor::Interior(c) = place.anchor {
                let [a, b] = ends(&bars[place.bar]);
                let d = b - a;
                slide_constraint(&mut bars[place.bar], c, (p - a).dot(d) / d.length_squared());
            }
            update_endpoint(&mut bars[place.bar], place.anchor, p, &panel_ids);
        }
        for &i in &taken {
            keep_point(&mut panels[i], p);
        }
        let movement = origin.distance(p);
        greatest = greatest.max(movement);
        note_attached(stats, taken.len(), &scalar(movement));
    }
    greatest
}

fn keep_point(panel: &mut MacroPanel, p: DVec3) {
    let distances = scalars(panel.constraint_points.iter().map(|q| p.distance(vector(q))));
    add_point(&mut panel.constraint_points, point(p), &distances);
}

fn add_crossings(bars: &mut [MacroBar], panels: &mut [MacroPanel], config: &ReconstructionConfig, stats: &mut BarContactSummary) {
    for bar in bars {
        let [a, b] = ends(bar);
        let d = b - a;
        let length = d.length();
        for panel in panels.iter_mut() {
            let (n, offset) = plane(panel);
            let denominator = n.dot(d);
            let t = -(n.dot(a) + offset) / denominator;
            let p = a + t * d;
            let usable = denominator.abs() >= EPS && t > EPS && t < 1.0 - EPS;
            let mut measure = CrossingMeasure {
                denominator: scalar(denominator.abs()),
                t: scalar(t),
                last: scalar(1.0 - EPS),
                inside: usable && contains(panel, p),
                gaps: Vec::new(),
                to_ends: [scalar(t * length + EPS), scalar((1.0 - t) * length + EPS)],
                shortest: config.min_edge,
            };
            if measure.inside {
                let mut gaps = vec![nearest_boundary(panel, p).distance(p)];
                gaps.extend(panel_points(panel).iter().map(|q| q.distance(p)));
                gaps.extend(bar.constraints.iter().map(|c| (number(c.t) - t).abs() * length));
                measure.gaps = gaps.into_iter().map(|g| [scalar(g), scalar(g + EPS)]).collect();
            }
            let crossing = classify_crossing(&measure);
            note_crossing(stats, crossing, panel.id, &bar.source_element_ids, point(p), scalar(t));
            if crossing == Crossing::Taken {
                let distances =
                    scalars(bar.constraints.iter().map(|c| (number(c.t) - t).abs() * length));
                add_crossing(&mut bar.constraints, coincident(&distances), scalar(t), panel.id);
                keep_point(panel, p);
            }
        }
        order_constraints(&mut bar.constraints);
    }
}

fn measure_missing(bars: &Vec<MacroBar>, panels: &[MacroPanel], stats: &BarContactSummary) -> Vec<MissingSurfaceContact> {
    let groups = anchor_groups(bars);
    let ids = panels.iter().map(|p| p.id).collect();
    let mut result = Vec::new();
    for k in order_by_node(&stats.unresolved_panel_ids_by_node) {
        let entry = &stats.unresolved_panel_ids_by_node[k];
        let points: Vec<DVec3> = groups
            .iter()
            .filter(|g| g.node == entry.node)
            .flat_map(|g| g.anchors.iter().map(|a| anchor_point(&bars[a.bar], a.anchor)))
            .collect();
        for missing in missing_of_node(entry, &stats.inferred_panel_ids_by_node, &ids) {
            let panel = &panels[missing.panel];
            let (n, d) = plane(panel);
            let anchors = points
                .iter()
                .map(|&p| {
                    let signed = n.dot(p) + d;
                    let q = p - signed * n;
                    SurfaceAnchorMeasurement {
                        point: point(p),
                        plane_distance: scalar(signed.abs()),
                        projection_inside: contains(panel, q),
                        boundary_distance: scalar(nearest_boundary(panel, q).distance(q)),
                        nearest_constraint_distance: panel_points(panel)
                            .iter()
                            .map(|x| x.distance(q))
                            .min_by(f64::total_cmp)
                            .map(scalar),
                    }
                })
                .collect();
            result.push(MissingSurfaceContact {
                node_id: missing.node,
                panel_id: panel.id,
                inferred: missing.inferred,
                source_bar_element_ids: contact_sources(bars, entry.node),
                anchors,
            });
        }
    }
    result
}

fn coordinates(p: [f64; 3]) -> Point {
    point(DVec3::from_array(p))
}

fn ring(points: &[[f64; 3]]) -> Vec<Point> {
    points.iter().map(|p| coordinates(*p)).collect()
}

fn surface(id: u32, normal: [f64; 3], d: f64, points: &[[f64; 3]]) -> MacroPanel {
    MacroPanel {
        id,
        panel_type: if normal[2] == 1.0 { PanelType::Slab } else { PanelType::Wall },
        stiffness_id: 1,
        plane_normal: coordinates(normal),
        plane_d: scalar(d),
        polygons: vec![ring(points)],
        filled_holes: 0,
        filled_hole_area: scalar(0.),
        fe_count: 1,
        source_element_ids: vec![id],
        connected_panel_ids: vec![],
        constraint_points: vec![],
    }
}

fn panel() -> MacroPanel {
    let mut result = surface(1, [0., 0., 1.], 0., &[[0., 0., 0.], [2., 0., 0.], [2., 2., 0.], [0., 2., 0.]]);
    result.source_element_ids = vec![100];
    result
}

fn raised(id: u32, z: f64) -> MacroPanel {
    let mut result = panel();
    result.id = id;
    result.plane_d = scalar(-z);
    for p in &mut result.polygons[0] {
        p[2] = scalar(z);
    }
    result
}

fn opened() -> MacroPanel {
    let mut result = panel();
    result.polygons.push(ring(&[[0.5, 0.5, 0.], [0.5, 1.5, 0.], [1.5, 1.5, 0.], [1.5, 0.5, 0.]]));
    result
}

fn bar(a: [f64; 3], b: [f64; 3], start: u32, end: u32) -> MacroBar {
    MacroBar {
        bar_type: BarType::Column,
        stiffness_id: Some(1),
        start_point: coordinates(a),
        end_point: coordinates(b),
        length: scalar(DVec3::from_array(a).distance(DVec3::from_array(b))),
        start_node_id: start,
        end_node_id: end,
        source_element_ids: vec![1],
        source_node_ids: vec![start, end],
        start_panel_ids: vec![],
        end_panel_ids: vec![],
        constraints: vec![],
        property_spans: vec![],
    }
}

fn joint(kinds: &[&str]) -> BarConstraint {
    BarConstraint {
        t: scalar(0.5),
        source_node_id: Some(2),
        kinds: kinds.iter().map(|k| k.to_string()).collect(),
        panel_ids: vec![],
    }
}

fn attach_all(bars: &mut Vec<MacroBar>, panels: &mut Vec<MacroPanel>, mesh: &MeshData) -> ContactReport {
    attach_bar_endpoints(bars, panels, mesh, &NodeNames::new(), &ReconstructionConfig::default())
}

fn alone(bars: &mut Vec<MacroBar>, panels: &mut Vec<MacroPanel>) -> ContactReport {
    attach_all(bars, panels, &MeshData::default())
}

fn listed(list: &[NodePanels], node: u32) -> Vec<u32> {
    list.iter().find(|n| n.node == node).map(|n| n.panel_ids.clone()).unwrap_or_default()
}

fn incidence(entries: &[(u32, Vec<usize>)]) -> PanelIncidence {
    let mut result = PanelIncidence::new();
    for (node, panels) in entries {
        result.set(*node, panels.clone());
    }
    result
}

fn all_ends(bars: &[MacroBar]) -> Vec<[DVec3; 2]> {
    bars.iter().map(ends).collect()
}

fn reconcile_axes(bars: &mut Vec<MacroBar>, original: &[[DVec3; 2]]) -> bool {
    reconcile(
        bars,
        original,
        &ReconstructionConfig::default(),
        &mut vec![],
        &PanelIncidence::new(),
        &mut CoupledPlaneSearch::default(),
    )
}

#[test]
fn disconnected_axis_is_inferred_from_surface_geometry() {
    let mut bars = vec![bar([0.5, 1., 0.04], [1.5, 1., 0.04], 1, 2)];
    let mut panels = vec![panel()];
    let report = alone(&mut bars, &mut panels);
    assert_eq!(report.stats.inferred_panel_ids_by_node.len(), 2);
    assert_eq!(bars[0].start_panel_ids, vec![1]);
    assert_eq!(bars[0].end_panel_ids, vec![1]);
    assert!(contains(&panels[0], vector(&bars[0].start_point)));
    assert!(contains(&panels[0], vector(&bars[0].end_point)));
    assert_eq!(bars[0].source_element_ids, vec![1]);
    assert!(bars[0].constraints.is_empty());
}

#[test]
fn separated_parallel_alternatives_are_not_arbitrarily_joined() {
    let mut panels = vec![panel(), raised(2, 0.02)];
    let mut bars = vec![bar([1., 1., 0.01], [1., 1., 1.], 1, 2)];
    let report = alone(&mut bars, &mut panels);
    assert_eq!(listed(&report.stats.ambiguous_panel_ids_by_node, 1), vec![1, 2]);
    assert!(report.stats.inferred_panel_ids_by_node.is_empty());
    assert!(bars[0].start_panel_ids.is_empty());
    assert_eq!(bars[0].start_point, coordinates([1., 1., 0.01]));
}

#[test]
fn inference_respects_budget_holes_and_existing_source_incidence() {
    let bars = vec![
        bar([1., 1., 0.01], [1., 1., 0.06], 1, 2),
        bar([0.2, 0.2, 0.01], [0.2, 0.2, 0.06], 3, 4),
    ];
    let mut incident = incidence(&[(3, vec![0])]);
    let mut stats = BarContactSummary::new();
    infer(&bars, &[opened()], &mut incident, &ReconstructionConfig::default(), &mut stats);
    assert!(stats.inferred_panel_ids_by_node.is_empty());
    assert_eq!(incident.get(3), Some(&vec![0]));
    for node in [1, 2, 4] {
        assert_eq!(incident.get(node), None);
    }
}

#[test]
fn missing_contact_measurements_use_final_geometry_and_keep_provenance() {
    let bars = vec![bar([1., 1., 0.06], [1., 1., 1.], 1, 2)];
    let mut stats = BarContactSummary::new();
    stats.unresolved_panel_ids_by_node.push(NodePanels { node: 1, panel_ids: vec![1] });
    let details = measure_missing(&bars, &[panel()], &stats);
    assert_eq!(details.len(), 1);
    assert_eq!(details[0].source_bar_element_ids, vec![1]);
    assert!(!details[0].inferred);
    assert_eq!(number(details[0].anchors[0].plane_distance), 0.06);
    assert!(details[0].anchors[0].projection_inside);
    assert_eq!(number(details[0].anchors[0].boundary_distance), 1.);
}

#[test]
fn coupled_solver_moves_plane_and_whole_axis_together() {
    let mut bars = vec![bar([0.5, 1., 0.04], [1.5, 1., 0.04], 1, 2)];
    let original = all_ends(&bars);
    let mut panels = vec![panel()];
    let incident = incidence(&[(1, vec![0]), (2, vec![0])]);
    assert!(reconcile(
        &mut bars,
        &original,
        &ReconstructionConfig::default(),
        &mut panels,
        &incident,
        &mut CoupledPlaneSearch::default()
    ));
    assert!(number(panels[0].plane_d).abs() > 1e-4);
    assert!(contains(&panels[0], vector(&bars[0].start_point)));
    assert!(contains(&panels[0], vector(&bars[0].end_point)));
    assert!((number(bars[0].length) - 1.0).abs() < EPS);
    assert!(panels[0].polygons[0].iter().all(|p| number(p[2]).abs() <= 0.05));
}

#[test]
fn incompatible_planes_are_frozen_and_omitted_incidence_is_reported() {
    let mut panels = vec![panel(), raised(2, 0.02)];
    let mut bars = vec![bar([1., 1., 0.01], [1., 1., 1.], 1, 2)];
    let original = all_ends(&bars);
    let incident = incidence(&[(1, vec![0, 1])]);
    let mut search = CoupledPlaneSearch::default();
    assert!(reconcile(
        &mut bars,
        &original,
        &ReconstructionConfig::default(),
        &mut panels,
        &incident,
        &mut search
    ));
    assert_eq!(search.frozen_panel_ids, vec![1, 2]);
    assert_eq!(search.requested_incidence_count, 2);
    assert_eq!(search.retained_incidence_count, 1);
    assert_eq!(search.relaxed_incidence_pairs.len(), 1);
    assert_eq!(number(panels[0].plane_d), 0.0);
    assert_eq!(number(panels[1].plane_d), -0.02);
    assert!(search.failure_reason.is_none());
}

#[test]
fn plane_rotation_is_bounded_by_vertex_motion_not_only_angle() {
    let panels = vec![panel()];
    let n = DVec3::new(-0.01, 0., 1.).normalize();
    let config = ReconstructionConfig::default();
    let tilted = transformed_planes(&panels, &[n], &[0.], &config).unwrap();
    for (a, b) in panels[0].polygons[0].iter().zip(&tilted[0][0]) {
        assert!(vector(a).distance(*b) <= 0.05);
        assert!(n.dot(*b).abs() < EPS);
    }
    let mut long = vec![panel()];
    for p in &mut long[0].polygons[0] {
        p[0] = scalar(number(p[0]) * 100.);
    }
    assert!(transformed_planes(&long, &[n], &[0.], &config).is_err());
    assert_eq!(panels[0].plane_normal, coordinates([0., 0., 1.]));
}

#[test]
fn shifted_planes_keep_shared_vertices_and_reject_excessive_motion() {
    let wall = surface(2, [1., 0., 0.], 0., &[[0., 0., 0.], [0., 2., 0.], [0., 2., 2.], [0., 0., 2.]]);
    let panels = vec![panel(), wall];
    let normals = [DVec3::Z, DVec3::X];
    let config = ReconstructionConfig::default();
    let moved = transformed_planes(&panels, &normals, &[-0.01, -0.02], &config).unwrap();
    assert_eq!(moved[0][0][0], moved[1][0][0]);
    assert_eq!(moved[0][0][3], moved[1][0][1]);
    assert_eq!(moved[0][0][0], DVec3::new(0.02, 0., 0.01));
    assert!(transformed_planes(&panels, &normals, &[-0.1, 0.], &config).is_err());
    assert_eq!(panels[0].polygons[0][0], coordinates([0., 0., 0.]));
}

#[test]
fn joint_solver_moves_whole_crossing_axes_within_budget() {
    let mut bars =
        vec![bar([0., 0., 0.], [2., 0., 0.], 1, 3), bar([1., -1., 0.], [1., 1., 0.], 4, 5)];
    for axis in &mut bars {
        axis.constraints.push(joint(&["junction"]));
    }
    let original = all_ends(&bars);
    for (axis, z) in bars.iter_mut().zip([0.006, -0.006]) {
        axis.start_point[2] = scalar(z);
        axis.end_point[2] = scalar(z);
    }
    assert!(reconcile_axes(&mut bars, &original));
    assert!(
        anchor_point(&bars[0], Anchor::Interior(0)).distance(anchor_point(&bars[1], Anchor::Interior(0)))
            < EPS
    );
    for (i, axis) in bars.iter().enumerate() {
        assert!(vector(&axis.start_point).distance(original[i][0]) <= 0.01 + EPS);
        assert_eq!(number(axis.constraints[0].t), 0.5);
        assert!(number(axis.length) > 1.99);
    }
}

#[test]
fn snap_uses_fifty_mm_budget_and_slides_property_boundary() {
    let mut main = bar([0., 0., 0.], [2., 0., 0.], 1, 3);
    main.constraints.push(joint(&["junction", "property_boundary"]));
    main.property_spans = vec![
        BarPropertySpan {
            start_t: scalar(0.),
            end_t: scalar(0.5),
            stiffness_id: 1,
            source_element_ids: vec![1],
        },
        BarPropertySpan {
            start_t: scalar(0.5),
            end_t: scalar(1.),
            stiffness_id: 2,
            source_element_ids: vec![2],
        },
    ];
    let mut bars = vec![main, bar([1.04, 0.04, 0.], [1.04, 1., 0.], 2, 4)];
    let original = all_ends(&bars);
    assert!(reconcile_axes(&mut bars, &original));
    assert!((number(bars[0].constraints[0].t) - 0.5).abs() > 1e-4);
    assert!(
        anchor_point(&bars[0], Anchor::Interior(0)).distance(vector(&bars[1].start_point)) < EPS
    );
    assert_eq!(bars[0].property_spans[0].end_t, bars[0].constraints[0].t);
    assert_eq!(bars[0].property_spans[1].start_t, bars[0].constraints[0].t);
    for (i, b) in bars.iter().enumerate() {
        assert!(vector(&b.start_point).distance(original[i][0]) <= 0.05 + EPS);
    }
}

#[test]
fn infeasible_joint_solver_does_not_commit_partial_changes() {
    let mut bars = vec![bar([0., 0., 0.], [2., 0., 0.], 1, 1)];
    assert!(!reconcile_axes(&mut bars, &[[DVec3::ZERO, DVec3::X * 2.]]));
    assert_eq!(bars[0].start_point, coordinates([0., 0., 0.]));
    assert_eq!(bars[0].end_point, coordinates([2., 0., 0.]));
}

#[test]
fn shared_endpoints_move_together_and_create_surface_constraint() {
    let mut bars = vec![
        bar([1., 1., 0.005], [1., 1., 1.], 1, 2),
        bar([1., 1., 0.005], [0., 1., 1.], 1, 3),
    ];
    let mut panels = vec![panel()];
    let report = alone(&mut bars, &mut panels);
    assert!(contains(&panels[0], vector(&bars[0].start_point)));
    assert_eq!(bars[0].start_point, bars[1].start_point);
    assert_eq!(bars[0].start_panel_ids, vec![1]);
    assert_eq!(panels[0].constraint_points, vec![bars[0].start_point]);
    assert!(vector(&bars[0].start_point).distance(DVec3::new(1., 1., 0.005)) <= 0.01);
    assert!(report.max_displacement <= 0.01);
}

#[test]
fn opening_is_not_treated_as_solid_surface() {
    let mut panels = vec![opened()];
    let mut bars = vec![bar([1., 1., 0.005], [1., 1., 1.], 1, 2)];
    let report = alone(&mut bars, &mut panels);
    assert_eq!(report.stats.attached_groups, 0);
    assert!(panels[0].constraint_points.is_empty());
    assert_eq!(bars[0].start_point, coordinates([1., 1., 0.005]));
}

#[test]
fn conflicting_surfaces_preserve_feasible_incidence_and_report_missing_one() {
    let mut second = raised(2, 0.006);
    second.source_element_ids = vec![101];
    let mut panels = vec![panel(), second];
    let mut mesh = MeshData::default();
    for id in [100, 101] {
        mesh.elements.push(ElementData { id, elem_type: 42, stiff_id: 1, nodes: vec![1, 10, 11] });
    }
    let mut bars = vec![bar([1., 1., 0.003], [1., 1., 1.], 1, 2)];
    let report = attach_all(&mut bars, &mut panels, &mesh);
    assert_eq!(report.stats.rejected_node_ids.len(), 1);
    assert_eq!(report.stats.partial_groups, 1);
    assert_eq!(report.stats.attached_groups, 1);
    assert_eq!(bars[0].start_panel_ids.len(), 1);
    let unresolved = listed(&report.stats.unresolved_panel_ids_by_node, 1);
    assert_eq!(unresolved.len(), 1);
    assert_ne!(bars[0].start_panel_ids[0], unresolved[0]);
    let taken = (bars[0].start_panel_ids[0] - 1) as usize;
    assert!(contains(&panels[taken], vector(&bars[0].start_point)));
}

#[test]
fn near_boundary_point_is_snapped_instead_of_creating_a_sliver() {
    let mut panels = vec![panel()];
    let mut bars = vec![bar([1., 0.005, 0.], [1., 0.005, 1.], 1, 2)];
    let report = alone(&mut bars, &mut panels);
    assert_eq!(report.stats.attached_groups, 1);
    assert_eq!(vector(&bars[0].start_point), DVec3::new(1., 0., 0.));
    assert_eq!(panels[0].constraint_points.iter().map(vector).collect::<Vec<_>>(), vec![DVec3::X]);
}

#[test]
fn rejected_interior_crossing_has_location_and_source_provenance() {
    let mut panels = vec![panel()];
    let mut bars = vec![bar([1., 0.005, -1.], [1., 0.005, 1.], 1, 2)];
    let report = alone(&mut bars, &mut panels);
    assert_eq!(report.stats.rejected_crossing_details.len(), 1);
    let detail = &report.stats.rejected_crossing_details[0];
    assert_eq!(detail.panel_id, 1);
    assert_eq!(detail.source_element_ids, vec![1]);
    assert_eq!(vector(&detail.point), DVec3::new(1., 0.005, 0.));
    assert_eq!(number(detail.t), 0.5);
    assert!(panels[0].constraint_points.is_empty());
}

#[test]
fn through_column_has_two_ends_and_an_interior_surface_constraint() {
    let mut panels = vec![panel()];
    let mut bars = vec![bar([1., 1., -1.], [1., 1., 1.], 1, 2)];
    let report = alone(&mut bars, &mut panels);
    assert_eq!(bars.len(), 1);
    assert_eq!(bars[0].start_point, coordinates([1., 1., -1.]));
    assert_eq!(bars[0].end_point, coordinates([1., 1., 1.]));
    assert_eq!(bars[0].constraints.len(), 1);
    assert_eq!(number(bars[0].constraints[0].t), 0.5);
    assert_eq!(bars[0].constraints[0].panel_ids, vec![1]);
    assert_eq!(report.stats.surface_crossings, 1);
}

#[test]
fn branch_endpoint_is_kept_on_an_unsplit_main_axis() {
    let mut main = bar([0., 0., 0.], [2., 0., 0.], 1, 3);
    main.constraints.push(joint(&["junction"]));
    let mut bars = vec![main, bar([1., 0.005, 0.], [1., 1., 0.], 2, 4)];
    alone(&mut bars, &mut vec![]);
    assert_eq!(bars.len(), 2);
    assert!(on_axis(&bars[0], vector(&bars[1].start_point)));
    assert!((number(bars[0].length) - 2.0).abs() < EPS);
    assert!(vector(&bars[0].start_point).distance(DVec3::ZERO) <= 0.01);
    assert!(vector(&bars[0].end_point).distance(DVec3::X * 2.0) <= 0.01);
}

#[test]
fn fits_tilted_plane_and_preserves_orientation() {
    let points = vec![
        DVec3::new(0., 0., 0.),
        DVec3::new(2., 0., 0.02),
        DVec3::new(0., 2., 0.),
        DVec3::new(2., 2., 0.02),
    ];
    let (n, d) = fit(&points, DVec3::Z).unwrap();
    assert!(n.z > 0.99);
    assert!(points.iter().all(|p| (n.dot(*p) + d).abs() < 1e-10));
    let shifted: Vec<_> = points.iter().map(|p| *p + DVec3::new(1000., -500., 10.)).collect();
    let (m, e) = fit(&shifted, DVec3::Z).unwrap();
    assert!(n.distance(m) < 1e-10);
    assert!(shifted.iter().all(|p| (m.dot(*p) + e).abs() < 1e-10));
}

#[test]
fn rejects_collinear_and_coincident_samples() {
    assert!(fit(&[DVec3::ZERO, DVec3::X, DVec3::X * 2.], DVec3::Z).is_none());
    assert!(fit(&[DVec3::ZERO; 4], DVec3::Z).is_none());
}

fn slab(id: u32, z: f64) -> MacroPanel {
    surface(id, [0., 0., 1.], -z, &[[0., 0., z], [1., 0., z], [1., 1., z], [0., 1., z]])
}

#[test]
fn near_t_junction_has_shared_edge_and_preserves_planes() {
    let mut panels = vec![
        slab(1, 0.),
        surface(
            2,
            [0., 1., 0.],
            -0.002,
            &[[0.25, 0.002, 0.003], [0.75, 0.002, 0.003], [0.75, 0.002, 1.], [0.25, 0.002, 1.]],
        ),
    ];
    let config = ReconstructionConfig::default();
    let stats = conform_panels(&mut panels, &config);
    assert!(stats.snapped_junctions >= 2);
    assert!(stats.inserted_vertices >= 2);
    assert_eq!(panels[0].connected_panel_ids, vec![2]);
    assert_eq!(panels[1].connected_panel_ids, vec![1]);
    assert!(number(stats.max_displacement) <= number(config.joint_tol) + EPS);
    for p in &panels {
        for q in p.polygons.iter().flatten() {
            assert!((vector(&p.plane_normal).dot(vector(q)) + number(p.plane_d)).abs() < EPS);
        }
    }
    let second = conform_panels(&mut panels, &config);
    assert_eq!(second.inserted_vertices, 0);
    assert_eq!(second.connected_panel_pairs, 1);
}

#[test]
fn conflicting_parallel_planes_are_not_welded() {
    let mut panels = vec![slab(1, 0.), slab(2, 0.005)];
    let before = format!("{panels:?}");
    let stats = conform_panels(&mut panels, &ReconstructionConfig::default());
    assert_eq!(stats.merged_vertices, 0);
    assert_eq!(stats.connected_panel_pairs, 0);
    assert_eq!(before, format!("{panels:?}"));
}

#[test]
fn coplanar_gap_closes_without_creating_overlap() {
    let mut panels = vec![
        slab(1, 0.),
        surface(2, [0., 0., 1.], 0., &[[1.005, 0., 0.], [2., 0., 0.], [2., 1., 0.], [1.005, 1., 0.]]),
    ];
    let stats = conform_panels(&mut panels, &ReconstructionConfig::default());
    assert_eq!(stats.merged_vertices, 2);
    assert_eq!(stats.connected_panel_pairs, 1);
    assert!(overlap(&rings_of(&panels[0]), &rings_of(&panels[1]), DVec3::Z) < 1e-10);
}

#[test]
fn shared_corner_is_not_reported_as_shared_edge() {
    let mut panels = vec![
        slab(1, 0.),
        surface(2, [0., 0., 1.], 0., &[[1., 1., 0.], [2., 1., 0.], [2., 2., 0.], [1., 2., 0.]]),
    ];
    let stats = conform_panels(&mut panels, &ReconstructionConfig::default());
    assert_eq!(stats.merged_vertices, 1);
    assert_eq!(stats.connected_panel_pairs, 0);
}

fn still_valid(panels: &[MacroPanel], vertex: usize, place: DVec3) -> bool {
    let base = Baseline::new(panels, panels.iter().map(plane_of).collect(), 0.03);
    let polygons: Vec<_> = panels.iter().map(|p| p.polygons.clone()).collect();
    let graph = Graph::new(&polygons);
    let moved = BTreeMap::from([(vertex, place)]);
    base.valid(&|i| moved_rings(&graph, i, &moved), &BTreeSet::from([0]))
}

#[test]
fn validation_rejects_new_short_edge() {
    assert!(still_valid(&[slab(1, 0.)], 1, DVec3::X));
    assert!(!still_valid(&[slab(1, 0.)], 1, DVec3::new(0.02, 0., 0.)));
}

#[test]
fn validation_rejects_inverted_slender_face() {
    let thin = [surface(1, [0., 0., 1.], 0., &[[0., 0., 0.], [1., 0., 0.], [0.5, 0.001, 0.]])];
    assert!(!still_valid(&thin, 2, DVec3::new(0.5, -0.001, 0.)));
}

#[test]
fn rejections_are_listed_under_their_reason() {
    let mut stats = BarContactSummary::new();
    reject(&mut stats, 4, "far");
    reject(&mut stats, 9, "near");
    reject(&mut stats, 2, "far");
    assert_eq!(stats.rejected_node_ids, vec![4, 9, 2]);
    let reasons: Vec<_> = stats.rejection_reasons.iter().map(|r| (r.reason.as_str(), r.nodes.clone())).collect();
    assert_eq!(reasons, vec![("far", vec![4, 2]), ("near", vec![9])]);
}

fn on_axis(bar: &MacroBar, p: DVec3) -> bool {
    let [a, b] = ends(bar);
    let d = b - a;
    let t = (p - a).dot(d) / d.length_squared();
    t >= -EPS && t <= 1.0 + EPS && p.distance(a + t * d) <= EPS
}

fn entry(node: u32, panel_ids: &[u32]) -> NodePanels {
    NodePanels { node, panel_ids: panel_ids.to_vec() }
}

#[test]
fn hypotheses_are_compared_node_by_node() {
    let stats = |inferred: Vec<NodePanels>| {
        let mut stats = BarContactSummary::new();
        stats.inferred_panel_ids_by_node = inferred;
        stats
    };
    let first = stats(vec![entry(1, &[5]), entry(2, &[6, 7])]);
    assert!(same_hypotheses(&first, &stats(vec![entry(2, &[6, 7]), entry(1, &[5])])));
    assert!(!same_hypotheses(&first, &stats(vec![entry(2, &[6]), entry(1, &[5])])));
    assert!(!same_hypotheses(&first, &stats(vec![entry(1, &[5])])));
    assert!(!same_hypotheses(&stats(vec![]), &first));
}

#[test]
fn refused_groups_keep_what_they_can() {
    let choice = |compatible: &[usize], distance: f64| PartialChoice {
        compatible: compatible.to_vec(),
        distance: scalar(distance),
    };
    let ids = vec![10, 11, 12];
    let indices = vec![0, 2];
    let mut stats = BarContactSummary::new();
    assert_eq!(settle_group(&mut stats, 1, 2, &indices, &ids, None, &vec![], false), Settlement::Whole);
    assert!(stats.rejected_node_ids.is_empty());
    let options = vec![choice(&[0], 0.5), choice(&[2], 0.1)];
    let refusal = Some("surface_outside_tolerance");
    assert_eq!(settle_group(&mut stats, 2, 1, &indices, &ids, refusal, &options, false), Settlement::Partial(1));
    assert_eq!(stats.unresolved_panel_ids_by_node[0].panel_ids, vec![10]);
    assert_eq!(settle_group(&mut stats, 3, 2, &indices, &ids, refusal, &vec![], true), Settlement::Joined);
    assert_eq!(settle_group(&mut stats, 4, 1, &indices, &ids, refusal, &vec![], true), Settlement::Left);
    assert_eq!(stats.unresolved_panel_ids_by_node[2].panel_ids, vec![10, 12]);
    assert_eq!(stats.rejected_node_ids, vec![2, 3, 4]);
    assert_eq!(stats.rejection_reasons.len(), 1);
    assert_eq!(stats.rejection_reasons[0].nodes, vec![2, 3, 4]);
    assert_eq!(stats.partial_groups, 1);
    let missing = missing_of_node(&entry(7, &[12, 99, 10]), &vec![entry(7, &[10])], &ids);
    assert_eq!(missing.iter().map(|m| (m.node, m.panel, m.inferred)).collect::<Vec<_>>(), [(7, 2, false), (7, 0, true)]);
    assert_eq!(order_by_node(&vec![entry(5, &[]), entry(3, &[]), entry(5, &[])]), vec![1, 0, 2]);
}

#[test]
fn released_incidence_is_recorded_by_node_and_panel() {
    let mut search = CoupledPlaneSearch::default();
    let left = release(&mut search, &vec![(1, 0), (2, 1), (3, 0)], &vec![1], &vec![50, 60]);
    assert_eq!(left, vec![(1, 0), (3, 0)]);
    assert_eq!(search.relaxed_incidence_pairs, vec![[2, 60]]);
    assert_eq!(search.retained_incidence_count, 2);
}

#[test]
fn moved_ends_take_constraints_and_spans_along() {
    let mut b = bar([0., 0., 0.], [2., 0., 0.], 1, 3);
    b.constraints = vec![joint(&["property_boundary"]), joint(&["junction"])];
    let span = |start: f64, end: f64| BarPropertySpan {
        start_t: scalar(start),
        end_t: scalar(end),
        stiffness_id: 1,
        source_element_ids: vec![],
    };
    b.property_spans = vec![span(0., 0.5), span(0.5, 1.)];
    let old = number(b.constraints[0].t);
    assert_eq!(old, 0.5);
    slide_constraint(&mut b, 1, 0.25);
    assert_eq!(number(b.property_spans[0].end_t), 0.5);
    slide_constraint(&mut b, 0, 0.75);
    assert_eq!(number(b.property_spans[0].end_t), 0.75);
    assert_eq!(number(b.property_spans[1].start_t), 0.75);
    assert_eq!(number(b.constraints[1].t), 0.25);
    update_endpoint(&mut b, Anchor::End, DVec3::new(3., 0., 0.), &vec![8]);
    assert_eq!(b.end_panel_ids, vec![8]);
    assert_eq!(number(b.constraints[0].t), 0.5);
    assert_eq!(number(b.property_spans[1].end_t), 1.);
    assert_eq!(number(b.length), 3.);
    update_endpoint(&mut b, Anchor::Interior(1), DVec3::ZERO, &vec![9]);
    assert_eq!(b.constraints[1].panel_ids, vec![9]);
}

#[test]
fn places_keep_bars_straight_and_surfaces_clear() {
    let end = |length: f64, direction: f64, t: f64, off: f64| PlaceMeasure::End {
        length: scalar(length),
        required: scalar(0.1),
        direction: scalar(direction),
        constraints: vec![ConstraintPlace { t: scalar(t), off_axis: scalar(off) }],
    };
    let safe = |measure: &PlaceMeasure, movement: f64| is_place_safe(measure, &scalar(movement), &scalar(0.05));
    assert!(safe(&end(1., 1., 0.5, 0.), 0.05));
    assert!(!safe(&end(1., 1., 0.5, 0.), 0.06));
    assert!(!safe(&end(0.05, 1., 0.5, 0.), 0.));
    assert!(!safe(&end(1., 0., 0.5, 0.), 0.));
    assert!(!safe(&end(1., 1., 1., 0.), 0.));
    assert!(!safe(&end(1., 1., 0.5, 1e-3), 0.));
    let gaps = |values: &[f64]| values.iter().map(|g| [scalar(*g), scalar(g + EPS)]).collect::<Vec<_>>();
    assert!(does_surface_take(true, &gaps(&[0., 0.1]), &scalar(0.1)));
    assert!(!does_surface_take(true, &gaps(&[0.05]), &scalar(0.1)));
    assert!(!does_surface_take(false, &gaps(&[]), &scalar(0.1)));
}

#[test]
fn turned_planes_are_taken_only_where_they_help() {
    let quality = |missing: usize| ContactQuality { junctions: 0, missing, rejected: 0, crossings: 0 };
    let measure = |now: usize, best: usize, moved: Option<f64>| TrialMeasure {
        proposed_panels: 2,
        candidate: quality(now),
        best: quality(best),
        bar_movement: moved.map(scalar),
        panel_movement: scalar(0.),
        limit: scalar(0.05),
        rotation: scalar(0.1),
    };
    let mut record = no_trial(5);
    assert_eq!((record.reason.as_str(), record.baseline_missing_incidences), ("no_safe_rotation", 5));
    assert!(!consider_trial(&mut record, 5, false, &measure(0, 5, Some(0.))));
    assert!(!consider_trial(&mut record, 5, true, &measure(0, 5, None)));
    assert_eq!(record.reason, "no_safe_rotation");
    assert!(!consider_trial(&mut record, 5, true, &measure(3, 5, Some(0.06))));
    assert_eq!((record.reason.as_str(), record.candidate_missing_incidences), ("cumulative_displacement", Some(3)));
    assert!(!consider_trial(&mut record, 5, true, &measure(5, 5, Some(0.))));
    assert_eq!(record.reason, "cumulative_displacement");
    assert!(consider_trial(&mut record, 5, true, &measure(4, 5, Some(0.05))));
    assert_eq!((record.reason.as_str(), record.accepted, record.proposed_panels), ("improved_contacts", true, 2));
    assert!(!consider_trial(&mut record, 5, true, &measure(4, 4, Some(0.))));
    assert_eq!(record.reason, "improved_contacts");
    let mut other = no_trial(5);
    assert!(!consider_trial(&mut other, 5, true, &measure(5, 5, Some(0.))));
    assert_eq!(other.reason, "no_contact_improvement");
}

#[test]
fn vertices_near_edges_are_candidates() {
    let square = |x: f64| -> Vec<Vec<_>> {
        vec![[[x, 0.0], [x + 1.0, 0.0], [x + 1.0, 1.0], [x, 1.0]].iter().map(|p| point(DVec3::new(p[0], p[1], 0.0))).collect()]
    };
    let graph = Graph::new(&vec![square(0.0), square(1.01)]);
    let tolerance = scalar(0.05);
    assert!(graph.is_merge_candidate(1, 4, &scalar(0.01), &tolerance));
    assert!(!graph.is_merge_candidate(1, 4, &scalar(0.06), &tolerance));
    assert!(!graph.is_merge_candidate(0, 1, &scalar(0.01), &tolerance));
    let edge = graph.edges()[1];
    let near = |t: f64, distance: f64| EdgeNearness { t: scalar(t), distance: scalar(distance) };
    assert!(graph.is_snap_candidate(4, &edge, &near(0.5, 0.05), &tolerance));
    assert!(!graph.is_snap_candidate(4, &edge, &near(0.0, 0.01), &tolerance));
    assert!(!graph.is_snap_candidate(0, &edge, &near(0.5, 0.01), &tolerance));
    assert!(graph.is_unresolved(4, &edge, &near(0.5, 0.01), &scalar(1e-8), &tolerance));
    assert!(!graph.is_unresolved(4, &edge, &near(0.5, 0.0), &scalar(1e-8), &tolerance));
    assert!(!graph.is_unresolved(4, &edge, &near(0.5, 0.05), &scalar(1e-8), &tolerance));
    assert!(is_cut(&near(0.5, 0.0), &scalar(1e-8)) && !is_cut(&near(1.0, 0.0), &scalar(1e-8)));
}
