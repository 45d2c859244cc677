//! Junctions between surfaces that meet.
use geo::{Contains, Intersects, Line, LineString, Polygon};
use glam::DVec3;
use std::collections::BTreeSet;
use topo_reconstruct::edges::Edge;
use topo_reconstruct::input::Point;
use topo_reconstruct::reconstruction::{EdgeUse, Model, PlaneFrame, RingMeasure, Surface, frame, planes};
use topo_reconstruct::reconstruction::junctions::{
    Junctions, Kind, Placed, Report, Segment, SplitCandidate, SplitVertices, check_precision, classify, expand_ring,
    intern_edge, is_registered, nearest, ordered_chain, ordered_ring_vertices, report, segment_ends,
};
use topo_reconstruct::scalar::Scalar;

fn scalar(value: f64) -> Scalar {
    Scalar { bits: value.to_bits() }
}

fn number(value: Scalar) -> f64 {
    f64::from_bits(value.bits)
}

fn scalars(values: impl IntoIterator<Item = f64>) -> Vec<Scalar> {
    values.into_iter().map(scalar).collect()
}

fn point(v: DVec3) -> Point {
    [scalar(v.x), scalar(v.y), scalar(v.z)]
}

fn vector(p: &Point) -> DVec3 {
    DVec3::new(number(p[0]), number(p[1]), number(p[2]))
}

/// A frame of the plane through a point and across a direction.
fn plane_frame(origin: DVec3, direction: DVec3) -> Option<PlaneFrame> {
    let length = direction.length();
    if !origin.is_finite() || !direction.is_finite() || !length.is_finite() || length == 0.0 {
        return None;
    }
    let normal = direction.normalize();
    let helper = if normal.z.abs() < 0.9 { DVec3::Z } else { DVec3::X };
    let u = helper.cross(normal).normalize();
    let v = normal.cross(u);
    Some(PlaneFrame { origin: point(origin), normal: point(normal), u: point(u), v: point(v) })
}

/// The coordinates of a point in a frame.
fn project(frame: &PlaneFrame, p: DVec3) -> [f64; 2] {
    let d = p - vector(&frame.origin);
    [d.dot(vector(&frame.u)), d.dot(vector(&frame.v))]
}

/// The signed distance of a point from a plane.
fn distance(frame: &PlaneFrame, p: DVec3) -> f64 {
    (p - vector(&frame.origin)).dot(vector(&frame.normal))
}

/// The point of a plane at given coordinates.
fn lift(frame: &PlaneFrame, uv: [f64; 2]) -> DVec3 {
    vector(&frame.origin) + uv[0] * vector(&frame.u) + uv[1] * vector(&frame.v)
}

fn polygon(contour: &[[f64; 2]]) -> Polygon<f64> {
    Polygon::new(
        LineString::from(contour.iter().chain(contour.first()).map(|p| (p[0], p[1])).collect::<Vec<_>>()),
        vec![],
    )
}

/// Whether a contour has area and neither crosses nor folds back on itself.
fn is_simple(points: &[[f64; 2]], epsilon: f64) -> bool {
    let n = points.len();
    if n == 0 {
        return false;
    }
    let side = |i: usize| {
        let (a, b) = (points[i], points[(i + 1) % n]);
        Line::new((a[0], a[1]), (b[0], b[1]))
    };
    let turn = |o: [f64; 2], a: [f64; 2], b: [f64; 2]| (a[0] - o[0]) * (b[1] - o[1]) - (a[1] - o[1]) * (b[0] - o[0]);
    let area: f64 = (0..n).map(|i| turn(points[0], points[i], points[(i + 1) % n])).sum();
    if !area.is_finite() || area.abs() <= epsilon * epsilon {
        return false;
    }
    (0..n).all(|i| {
        let apart = (i + 2..n).filter(|&j| !(i == 0 && j == n - 1)).all(|j| !side(i).intersects(&side(j)));
        let (a, b, c) = (points[(i + n - 1) % n], points[i], points[(i + 1) % n]);
        let dot = (a[0] - b[0]) * (c[0] - b[0]) + (a[1] - b[1]) * (c[1] - b[1]);
        apart && !(turn(b, a, c).abs() <= epsilon * epsilon && dot > 0.0)
    })
}

/// What a surface's rings measure in the frame of its plane.
fn measure_rings(frame: &PlaneFrame, rings: &[Vec<DVec3>], precision: f64) -> Vec<RingMeasure> {
    let contours: Vec<Vec<[f64; 2]>> =
        rings.iter().map(|r| r.iter().map(|p| project(frame, *p)).collect()).collect();
    rings
        .iter()
        .zip(&contours)
        .enumerate()
        .map(|(k, (ring, uv))| {
            let own = polygon(uv);
            RingMeasure {
                offsets: scalars(ring.iter().map(|p| distance(frame, *p).abs())),
                contour: uv.iter().map(|p| [scalar(p[0]), scalar(p[1])]).collect(),
                lengths: scalars((0..uv.len()).map(|i| {
                    let (a, b) = (uv[i], uv[(i + 1) % uv.len()]);
                    (a[0] - b[0]).hypot(a[1] - b[1])
                })),
                simple: is_simple(uv, precision),
                inside: k == 0 || {
                    let outer = polygon(&contours[0]);
                    outer.contains(&own) && !outer.exterior().intersects(own.exterior())
                },
                clear_of: (0..k).map(|j| j == 0 || !polygon(&contours[j]).intersects(&own)).collect(),
            }
        })
        .collect()
}

/// A model with junctions: its edges, those of junctions among them, and the
/// junction edges of each surface.
struct Conformed {
    pub model: Model,
    pub edges: Vec<Edge>,
    pub junctions: Vec<Vec<usize>>,
    pub report: Report,
}

struct RawSegment {
    surfaces: [usize; 2],
    kind: Kind,
    start: DVec3,
    end: DVec3,
}

fn cross2(a: [f64; 2], b: [f64; 2]) -> f64 {
    a[0] * b[1] - a[1] * b[0]
}

fn sub2(a: [f64; 2], b: [f64; 2]) -> [f64; 2] {
    [a[0] - b[0], a[1] - b[1]]
}

fn on_side(p: [f64; 2], a: [f64; 2], b: [f64; 2], eps: f64) -> bool {
    let (ab, ap) = (sub2(b, a), sub2(p, a));
    let length = ab[0].hypot(ab[1]);
    if length <= eps {
        return ap[0].hypot(ap[1]) <= eps;
    }
    let dot = ap[0] * ab[0] + ap[1] * ab[1];
    cross2(ab, ap).abs() <= eps * length && dot >= -eps * length && dot <= length * length + eps * length
}

/// Whether a point lies on a ring, and whether it lies on it or inside.
fn ring_location(ring: &[[f64; 2]], p: [f64; 2], eps: f64) -> (bool, bool) {
    let mut inside = false;
    for i in 0..ring.len() {
        let (a, b) = (ring[i], ring[(i + 1) % ring.len()]);
        if on_side(p, a, b, eps) {
            return (true, true);
        }
        if (a[1] > p[1]) != (b[1] > p[1]) && a[0] + (p[1] - a[1]) * (b[0] - a[0]) / (b[1] - a[1]) > p[0] {
            inside = !inside;
        }
    }
    (false, inside)
}

fn contours(surface: &Surface) -> Vec<Vec<[f64; 2]>> {
    surface.contours.iter().map(|r| r.iter().map(|uv| uv.map(number)).collect()).collect()
}

fn contains(rings: &[Vec<[f64; 2]>], uv: [f64; 2], eps: f64) -> bool {
    if !ring_location(&rings[0], uv, eps).1 {
        return false;
    }
    for hole in &rings[1..] {
        match ring_location(hole, uv, eps) {
            (true, _) => return true,
            (false, true) => return false,
            _ => {}
        }
    }
    true
}

fn bounds(rings: &[Vec<[f64; 2]>], plane: &PlaneFrame) -> (DVec3, DVec3) {
    rings.iter().flatten().fold((DVec3::INFINITY, DVec3::NEG_INFINITY), |(low, high), uv| {
        let p = lift(plane, *uv);
        (low.min(p), high.max(p))
    })
}

fn line_of_planes(a: &PlaneFrame, b: &PlaneFrame) -> Option<(DVec3, DVec3)> {
    let (na, nb) = (vector(&a.normal), vector(&b.normal));
    let cross = na.cross(nb);
    let sine = cross.length();
    if !sine.is_finite() || sine < 1e-8 {
        return None;
    }
    let direction = cross / sine;
    let offset = (vector(&b.origin) - vector(&a.origin)).dot(nb);
    Some((vector(&a.origin) + direction.cross(na) * (offset / sine), direction))
}

/// The parts of a line that lie on a surface.
fn surface_intervals(
    rings: &[Vec<[f64; 2]>],
    plane: &PlaneFrame,
    other: &PlaneFrame,
    (origin, direction): (DVec3, DVec3),
    eps: f64,
) -> Vec<(f64, f64)> {
    let mut parameters = Vec::new();
    for ring in rings {
        for i in 0..ring.len() {
            let (p, q) = (lift(plane, ring[i]), lift(plane, ring[(i + 1) % ring.len()]));
            let (dp, dq) = (distance(other, p), distance(other, q));
            if dp.abs() <= eps && dq.abs() <= eps {
                parameters.push((p - origin).dot(direction));
                parameters.push((q - origin).dot(direction));
            } else if !(dp > eps && dq > eps || dp < -eps && dq < -eps) && (dp - dq).abs() > f64::EPSILON {
                let met = p.lerp(q, (dp / (dp - dq)).clamp(0., 1.));
                parameters.push((met - origin).dot(direction));
            }
        }
    }
    parameters.sort_by(f64::total_cmp);
    parameters.dedup_by(|a, b| (*a - *b).abs() <= eps);
    let mut result: Vec<(f64, f64)> = Vec::new();
    for w in parameters.windows(2) {
        let middle = origin + direction * ((w[0] + w[1]) * 0.5);
        if w[1] - w[0] <= eps || !contains(rings, project(plane, middle), eps) {
            continue;
        }
        match result.last_mut() {
            Some(last) if w[0] <= last.1 + eps => last.1 = last.1.max(w[1]),
            _ => result.push((w[0], w[1])),
        }
    }
    result
}

fn segment_parameter(p: DVec3, a: DVec3, b: DVec3, eps: f64) -> Option<f64> {
    let ab = b - a;
    let length = ab.length();
    if length <= eps {
        return None;
    }
    let t = (p - a).dot(ab) / ab.length_squared();
    if t < -eps / length || t > 1. + eps / length {
        return None;
    }
    let t = t.clamp(0., 1.);
    (a.lerp(b, t).distance(p) <= eps).then_some(t)
}

fn segments_meet(a: &RawSegment, b: &RawSegment, plane: &PlaneFrame, eps: f64) -> Option<DVec3> {
    let (p, q) = (project(plane, a.start), project(plane, b.start));
    let (r, s) = (sub2(project(plane, a.end), p), sub2(project(plane, b.end), q));
    let (lr, ls) = (r[0].hypot(r[1]), s[0].hypot(s[1]));
    let denominator = cross2(r, s);
    if denominator.abs() <= eps * (lr * ls).max(eps) {
        return None;
    }
    let qp = sub2(q, p);
    let (t, u) = (cross2(qp, s) / denominator, cross2(qp, r) / denominator);
    let slack = eps / lr.min(ls).max(eps);
    let within = |x: f64| x >= -slack && x <= 1. + slack;
    (within(t) && within(u)).then(|| a.start.lerp(a.end, t.clamp(0., 1.)))
}

fn raw_segments(model: &Model, eps: f64) -> (usize, Vec<RawSegment>) {
    let surfaces = model.surfaces();
    let rings: Vec<_> = surfaces.iter().map(contours).collect();
    let planes: Vec<_> = surfaces.iter().map(|s| &model.planes()[s.plane]).collect();
    let boxes: Vec<_> = rings.iter().zip(&planes).map(|(r, p)| bounds(r, p)).collect();
    let mut pairs = 0;
    let mut result = Vec::new();
    for i in 0..surfaces.len() {
        for j in i + 1..surfaces.len() {
            let apart = (boxes[i].1 + eps).cmplt(boxes[j].0).any() || (boxes[j].1 + eps).cmplt(boxes[i].0).any();
            let Some(line) = line_of_planes(planes[i], planes[j]).filter(|_| !apart) else {
                continue;
            };
            pairs += 1;
            let first = surface_intervals(&rings[i], planes[i], planes[j], line, eps);
            let second = surface_intervals(&rings[j], planes[j], planes[i], line, eps);
            for a in &first {
                for b in &second {
                    let (from, to) = (a.0.max(b.0), a.1.min(b.1));
                    if to - from <= eps {
                        continue;
                    }
                    let (start, end) = (line.0 + line.1 * from, line.0 + line.1 * to);
                    let middle = start.lerp(end, 0.5);
                    let edge = |k: usize| {
                        rings[k].iter().any(|r| ring_location(r, project(planes[k], middle), eps).0)
                    };
                    result.push(RawSegment { surfaces: [i, j], kind: classify(edge(i), edge(j)), start, end });
                }
            }
        }
    }
    (pairs, result)
}

/// The points at which segments begin, end and meet.
fn split_points(model: &Model, raw: &[RawSegment], eps: f64) -> Vec<DVec3> {
    let mut points: Vec<DVec3> = Vec::new();
    let mut add = |p: DVec3| {
        if !points.iter().any(|q| q.distance(p) <= eps) {
            points.push(p);
        }
    };
    for segment in raw {
        add(segment.start);
        add(segment.end);
    }
    for (i, a) in raw.iter().enumerate() {
        for b in &raw[i + 1..] {
            if let Some(&s) = a.surfaces.iter().find(|s| b.surfaces.contains(s)) {
                let plane = &model.planes()[model.surfaces()[s].plane];
                if let Some(p) = segments_meet(a, b, plane, eps) {
                    add(p);
                }
            }
        }
    }
    points
}

/// The model with the edges of its surfaces split at vertices that lie on them.
fn rebuild(model: &Model, places: &[DVec3], split: &[usize], eps: f64, minimum: f64) -> Result<Model, &'static str> {
    let mut result = Model::new(scalar(eps), scalar(minimum)).map_err(|_| "invalid junction precision")?;
    for plane in model.planes() {
        result.add_plane(*plane);
    }
    for p in places {
        result.add_vertex(point(*p)).map_err(|_| "finite junction intersection")?;
    }
    for surface in model.surfaces() {
        let mut rings = Vec::new();
        for uses in &surface.boundaries {
            let ring = ordered_ring_vertices(uses, model.edges())?;
            let candidates = (0..ring.len())
                .map(|i| {
                    let (a, b) = (ring[i], ring[(i + 1) % ring.len()]);
                    let (pa, pb) = (places[a], places[b]);
                    split
                        .iter()
                        .filter(|&&v| v != a && v != b)
                        .filter_map(|&vertex| {
                            let p = places[vertex];
                            segment_parameter(p, pa, pb, eps).map(|t| SplitCandidate {
                                vertex,
                                t: scalar(t),
                                from_start: scalar(pa.distance(p)),
                                from_end: scalar(pb.distance(p)),
                            })
                        })
                        .collect()
                })
                .collect();
            rings.push(expand_ring(&ring, &candidates, &scalar(minimum)));
        }
        let outlines: Vec<Vec<DVec3>> = rings.iter().map(|r| r.iter().map(|&v| places[v]).collect()).collect();
        let measures = measure_rings(&model.planes()[surface.plane], &outlines, eps);
        result
            .add_surface(surface.plane, rings, surface.source_elements.clone(), measures)
            .map_err(|_| "invalid surface boundary")?;
    }
    Ok(result)
}

fn use_count(model: &Model) -> usize {
    model.surfaces().iter().flat_map(|s| &s.boundaries).map(Vec::len).sum()
}

/// Makes all finite intersections of surfaces that are not parallel shared
/// topology. Whether coincident panels merge is no question of geometry.
fn conform(model: Model, eps: f64, minimum: f64) -> Result<Conformed, &'static str> {
    check_precision(&scalar(eps))?;
    let (pairs, raw) = raw_segments(&model, eps);
    let mut places: Vec<DVec3> = model.vertices().iter().map(vector).collect();
    let old = places.len();
    let reuse = scalar(eps.max(minimum));
    let mut taken = SplitVertices { count: old, split: Vec::new() };
    for p in split_points(&model, &raw, eps) {
        taken.take_point(&scalars(places.iter().map(|q| q.distance(p))), &reuse);
        if taken.count > places.len() {
            places.push(p);
        }
    }
    let split = taken.split;
    let before = use_count(&model);
    let model = if raw.is_empty() { model } else { rebuild(&model, &places, &split, eps, minimum)? };
    let mut state = Junctions {
        edges: model.edges().clone(),
        of_surface: vec![Vec::new(); model.surfaces().len()],
        shared: Vec::new(),
        segments: Vec::new(),
    };
    for item in raw {
        let from = |p: DVec3| scalars(split.iter().map(|&v| places[v].distance(p)));
        let [start, end] = segment_ends(&split, &from(item.start), &from(item.end), &reuse)?;
        let length = scalar(places[start].distance(places[end]));
        if !is_registered(&length, &scalar(minimum)) {
            continue;
        }
        let passed = split
            .iter()
            .filter_map(|&vertex| {
                segment_parameter(places[vertex], places[start], places[end], eps)
                    .map(|t| Placed { vertex, t: scalar(t) })
            })
            .collect();
        let chain = ordered_chain(&passed);
        let lengths = scalars(chain.windows(2).map(|w| places[w[0]].distance(places[w[1]])));
        let segment =
            Segment { surfaces: item.surfaces, kind: item.kind, vertices: [start, end], length };
        state.add_segment(segment, &chain, &lengths, &scalar(minimum))?;
    }
    let edges = state.edges.clone();
    let junctions = state.of_surface.clone();
    let added = use_count(&model).saturating_sub(before);
    let report = report(state, pairs, places.len() - old, added);
    Ok(Conformed { model, edges, junctions, report })
}

struct Fixture {
    model: Model,
}

impl Fixture {
    fn new() -> Self {
        Fixture { model: Model::new(scalar(1e-8), scalar(1e-6)).unwrap() }
    }

    fn add(&mut self, origin: DVec3, normal: DVec3, points: [[f64; 3]; 4], element: u32) {
        let frame = plane_frame(origin, normal).unwrap();
        let plane = self.model.add_plane(frame);
        let places = points.map(DVec3::from_array).to_vec();
        let ring = places.iter().map(|p| self.model.add_vertex(point(*p)).unwrap()).collect();
        let measures = measure_rings(&frame, &[places], 1e-8);
        self.model.add_surface(plane, vec![ring], vec![element], measures).unwrap();
    }
}

fn slab_and_wall(shift: DVec3, reverse_wall: bool) -> Model {
    let at = |p: [f64; 3]| (DVec3::from_array(p) + shift).to_array();
    let mut fixture = Fixture::new();
    let slab = [[-2.0, -2.0, 0.0], [2.0, -2.0, 0.0], [2.0, 2.0, 0.0], [-2.0, 2.0, 0.0]].map(at);
    fixture.add(shift, DVec3::Z, slab, 1);
    let wall = [[0.0, -1.0, 0.0], [0.0, 1.0, 0.0], [0.0, 1.0, 2.0], [0.0, -1.0, 2.0]].map(at);
    fixture.add(shift, if reverse_wall { DVec3::NEG_X } else { DVec3::X }, wall, 2);
    fixture.model
}

fn conformed(model: Model) -> Conformed {
    conform(model, 1e-8, 1e-6).unwrap()
}

fn common(found: &Conformed) -> Vec<usize> {
    found.junctions[0].iter().filter(|e| found.junctions[1].contains(e)).copied().collect()
}

#[test]
fn t_junction_becomes_one_shared_constraint() {
    let found = conformed(slab_and_wall(DVec3::ZERO, false));
    assert_eq!(found.report.detected_segments, 1);
    assert_eq!(found.report.segments[0].kind, Kind::TJunction);
    assert!(found.report.shared_constraint_edges >= 1);
    let common = common(&found);
    assert!(!common.is_empty());
    for edge in common {
        for v in found.edges[edge] {
            let p = vector(&found.model.vertices()[v]);
            assert!(p.x.abs() < 1e-8);
            assert!(p.z.abs() < 1e-8);
        }
    }
    assert_eq!(number(found.report.segments[0].length), 2.0);
}

#[test]
fn result_is_transform_invariant_and_idempotent() {
    for (shift, reverse) in [(DVec3::ZERO, false), (DVec3::new(1.2e6, -8.0e5, 42.0), true)] {
        let first = conformed(slab_and_wall(shift, reverse));
        assert_eq!(first.report.detected_segments, 1);
        let vertices: Vec<DVec3> = first.model.vertices().iter().map(vector).collect();
        let boundaries = |model: &Model| -> Vec<Vec<Vec<(usize, bool)>>> {
            model
                .surfaces()
                .iter()
                .map(|s| s.boundaries.iter().map(|r| r.iter().map(|e| (e.edge, e.reversed)).collect()).collect())
                .collect()
        };
        let before = boundaries(&first.model);
        let second = conformed(first.model);
        assert_eq!(second.report.generated_vertices, 0);
        assert_eq!(second.model.vertices().iter().map(vector).collect::<Vec<_>>(), vertices);
        assert_eq!(second.edges, first.edges);
        assert_eq!(boundaries(&second.model), before);
        assert_eq!(second.junctions, first.junctions);
    }
}

#[test]
fn crossing_splits_boundary_edges_and_keeps_shared_ids() {
    let mut fixture = Fixture::new();
    fixture.add(DVec3::ZERO, DVec3::Z, [[-2., -1., 0.], [2., -1., 0.], [2., 1., 0.], [-2., 1., 0.]], 1);
    fixture.add(DVec3::ZERO, DVec3::X, [[0., -2., -2.], [0., 2., -2.], [0., 2., 2.], [0., -2., 2.]], 2);
    let found = conformed(fixture.model);
    assert_eq!(found.report.detected_segments, 1);
    assert_eq!(found.report.segments[0].kind, Kind::Crossing);
    assert_eq!(found.report.generated_vertices, 2);
    assert_eq!(found.report.split_boundary_edges, 2);
    assert!(!common(&found).is_empty());
}

#[test]
fn nearby_nonintersecting_surfaces_remain_separate() {
    let mut fixture = Fixture::new();
    fixture.add(DVec3::ZERO, DVec3::Z, [[0., 0., 0.], [1., 0., 0.], [1., 1., 0.], [0., 1., 0.]], 1);
    let above = [[0., 0., 0.01], [1., 0., 0.01], [1., 1., 0.01], [0., 1., 0.01]];
    fixture.add(DVec3::new(0., 0., 0.01), DVec3::Z, above, 2);
    let found = conformed(fixture.model);
    assert_eq!(found.report.detected_segments, 0);
    assert!(found.junctions.iter().all(|j| j.is_empty()));
}

#[test]
fn surfaces_that_share_an_edge_meet_there() {
    let mut fixture = Fixture::new();
    fixture.add(DVec3::ZERO, DVec3::Z, [[0., 0., 0.], [2., 0., 0.], [2., 2., 0.], [0., 2., 0.]], 1);
    fixture.add(DVec3::ZERO, DVec3::Y, [[0., 0., 0.], [2., 0., 0.], [2., 0., 1.], [0., 0., 1.]], 2);
    let found = conformed(fixture.model);
    assert_eq!(found.report.candidate_pairs, 1);
    assert_eq!(found.report.segments[0].kind, Kind::BoundaryJunction);
    assert_eq!(found.report.segments[0].surfaces, [0, 1]);
}

#[test]
fn rings_and_edges_that_do_not_hold_together_are_refused() {
    let edges = vec![[0, 1], [1, 2], [0, 2], [2, 3]];
    let ring = |uses: &[(usize, bool)]| -> Vec<EdgeUse> {
        uses.iter().map(|&(edge, reversed)| EdgeUse { edge, reversed }).collect()
    };
    let read = |uses: &[(usize, bool)]| ordered_ring_vertices(&ring(uses), &edges);
    assert_eq!(read(&[(0, false), (1, false), (2, true)]), Ok(vec![0, 1, 2]));
    assert_eq!(read(&[(0, false), (1, false)]), Err("invalid surface boundary"));
    assert_eq!(read(&[(0, false), (9, false), (2, true)]), Err("invalid surface boundary edge"));
    assert_eq!(read(&[(0, false), (1, true), (2, true)]), Err("disconnected surface boundary"));
    assert_eq!(read(&[(0, false), (1, false), (3, false)]), Err("open surface boundary"));
    let mut list = edges.clone();
    assert_eq!(intern_edge(&mut list, 2, 1), Ok(1));
    assert_eq!(intern_edge(&mut list, 3, 1), Ok(4));
    assert_eq!(list[4], [1, 3]);
    assert_eq!(intern_edge(&mut list, 3, 3), Err("degenerate junction edge"));
    assert_eq!(check_precision(&scalar(0.)), Err("invalid junction precision"));
    assert_eq!(check_precision(&scalar(f64::NAN)), Err("invalid junction precision"));
    assert_eq!(check_precision(&scalar(1e-8)), Ok(()));
}

#[test]
fn splits_keep_their_distance_and_their_order() {
    let candidate = |vertex: usize, t: f64| SplitCandidate {
        vertex,
        t: scalar(t),
        from_start: scalar(t),
        from_end: scalar(1. - t),
    };
    let candidates = vec![
        vec![candidate(8, 0.75), candidate(7, 0.25), candidate(9, 0.01), candidate(7, 0.25)],
        vec![],
        vec![candidate(5, 0.5)],
    ];
    assert_eq!(expand_ring(&vec![0, 1, 2], &candidates, &scalar(0.05)), vec![0, 7, 8, 1, 2, 5]);
    let passed = vec![
        Placed { vertex: 4, t: scalar(1.) },
        Placed { vertex: 6, t: scalar(0.) },
        Placed { vertex: 5, t: scalar(0.5) },
    ];
    assert_eq!(ordered_chain(&passed), vec![6, 5, 4]);
    let seen: BTreeSet<usize> = ordered_chain(&passed).into_iter().collect();
    assert_eq!(seen.len(), 3);
    assert_eq!(nearest(&scalars([3., 0.5, 0.25]), &scalar(1.)), Some(2));
    assert_eq!(nearest(&scalars([3., 2.]), &scalar(1.)), None);
}
