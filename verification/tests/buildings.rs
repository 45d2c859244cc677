//! Schemes, welding, slabs, walls and bars.
use geo::{Area, Contains, Intersects, Line, LineString, Polygon};
use geo::line_intersection::{LineIntersection, line_intersection};
use glam::{DVec2, DVec3};
use std::collections::BTreeMap;
use topo_reconstruct::config::ReconstructionConfig;
use topo_reconstruct::edges::Edge;
use topo_reconstruct::exporters::dxf::{DxfBar, DxfExporter, DxfPanel};
use topo_reconstruct::geometry::partition::extract_cutting_edge_nodes_for_slab;
use topo_reconstruct::geometry::topology::order_by_distance;
use topo_reconstruct::geometry::utils::{
    Corner, NodeNames, Welding, clean_polygon_coords_3d, count_welded, find_nearest_line, remove_short_edges_3d,
    weldable_nodes,
};
use topo_reconstruct::input::{ElementData, MeshData, NodeMap, Point};
use topo_reconstruct::models::{BarType, MacroBar, MacroPanel, PanelType, count_bars, count_panels};
use topo_reconstruct::parsers::LiraParser;
use topo_reconstruct::parsers::lira::LiraError;
use topo_reconstruct::reconstruction::assembly::boundary::Face;
use topo_reconstruct::reconstructors::bars::{
    BarReconstructor, PieceMeasure, Step, StretchMeasure, Trace, bar_of_piece, chain_of, classify_bar, cut_places,
    is_degenerate, is_straight, next_step, pieces,
};
use topo_reconstruct::reconstructors::outline::outlines;
use topo_reconstruct::reconstructors::panels::{
    ClusterFit, Contour, Orientation, PanelShape, ParsedShell, PlaneCluster, RemovalMeasure, RingMeasure,
    RingRelations, ShellMeasure, ShellRank, classify_shell, coalesce, face_nodes, fill_sliver_holes, is_new_level,
    is_usable_shell, may_remove, number_panels, order_shells, order_valid_rings, outer_ring, panel_faces,
    panel_of_group, panel_type, place_shell,
};
use topo_reconstruct::reconstructors::pipeline::{
    excluded_elements, excluded_message, listed_message, missing_bars, missing_shells, short_edges_message,
};
use topo_reconstruct::scalar::Scalar;

fn scalar(value: f64) -> Scalar {
    Scalar { bits: value.to_bits() }
}

fn number(value: Scalar) -> f64 {
    f64::from_bits(value.bits)
}

fn scalars(values: impl IntoIterator<Item = f64>) -> Vec<Scalar> {
    values.into_iter().map(scalar).collect()
}

fn point(v: DVec3) -> Point {
    [scalar(v.x), scalar(v.y), scalar(v.z)]
}

fn vector(p: &Point) -> DVec3 {
    DVec3::new(number(p[0]), number(p[1]), number(p[2]))
}

/// An orthonormal basis of the plane across a normal.
fn plane_basis(normal: DVec3) -> (DVec3, DVec3) {
    let norm = normal.normalize();
    let u = if norm.z.abs() < 0.9 {
        norm.cross(DVec3::Z).normalize()
    } else {
        norm.cross(DVec3::X).normalize()
    };
    (u, norm.cross(u).normalize())
}

fn planar_ring(points: &[DVec3], u: DVec3, v: DVec3) -> LineString<f64> {
    let mut coords: Vec<(f64, f64)> = points.iter().map(|p| (p.dot(u), p.dot(v))).collect();
    if let Some(&first) = coords.first() {
        coords.push(first);
    }
    LineString::from(coords)
}

/// Whether `inner` lies strictly inside `outer`.
fn strictly_inside(outer: &Polygon<f64>, inner: &Polygon<f64>) -> bool {
    outer.contains(inner) && !outer.exterior().intersects(inner.exterior())
}

/// Welds nodes that are closer than the radius.
fn canonicalize_nodes(nodes: &NodeMap, radius: f64) -> NodeNames {
    assert!(radius.is_finite() && radius > 0.0);
    let mut welding = Welding::new();
    for id in weldable_nodes(nodes) {
        let Some(p) = nodes.get(id).map(|p| vector(&p)) else {
            continue;
        };
        let cell = [
            (p.x / radius).floor() as i64,
            (p.y / radius).floor() as i64,
            (p.z / radius).floor() as i64,
        ];
        let found = welding.nearby(&cell);
        let distances = scalars(found.iter().map(|&k| {
            let other = welding.representative(k);
            nodes.get(other).map_or(f64::INFINITY, |q| p.distance(vector(&q)))
        }));
        welding.weld(id, cell, &found, &distances, &scalar(radius));
    }
    welding.into_names()
}

/// Where a shell lies.
struct ShellPlane {
    normal: DVec3,
    d: f64,
    centroid: DVec3,
    points: Vec<DVec3>,
}

fn shell_plane(points: Vec<DVec3>, config: &ReconstructionConfig) -> (ShellPlane, f64) {
    let centroid = points.iter().copied().sum::<DVec3>() / points.len() as f64;
    let v1 = points[1] - points[0];
    let mut normal = v1.cross(points[2] - points[0]);
    let mut length = normal.length();
    if length < 1e-7 && points.len() >= 4 {
        normal = v1.cross(points[3] - points[0]);
        length = normal.length();
    }
    normal /= length;
    // The orientation does not depend on the winding of the element.
    let major = if normal.x.abs() >= normal.y.abs() && normal.x.abs() >= normal.z.abs() {
        normal.x
    } else if normal.y.abs() >= normal.z.abs() {
        normal.y
    } else {
        normal.z
    };
    if major < 0.0 {
        normal = -normal;
    }
    let angle = number(config.tol_angle);
    if normal.z.abs() >= angle.cos() {
        normal = DVec3::Z;
    } else if normal.z.abs() <= angle.sin() {
        normal = DVec3::new(normal.x, normal.y, 0.0).normalize();
    }
    (ShellPlane { normal, d: -normal.dot(centroid), centroid, points }, length)
}

fn parse_shells(mesh: &MeshData, names: &NodeNames, config: &ReconstructionConfig) -> (Vec<ParsedShell>, Vec<ShellPlane>) {
    let mut shells = Vec::new();
    let mut planes = Vec::new();
    for element in mesh.elements.iter().filter(|e| e.is_shell()) {
        let nodes = face_nodes(element, names);
        let points: Vec<DVec3> = nodes.iter().filter_map(|&n| mesh.nodes.get(n)).map(|p| vector(&p)).collect();
        let placed = points.len() == nodes.len() && points.len() >= 3;
        let finite = points.iter().all(|p| p.is_finite());
        let mut measure = ShellMeasure {
            placed,
            finite,
            normal_length: scalar(0.0),
            deviations: Vec::new(),
            tolerance: config.tol_dist,
        };
        if !placed || !finite {
            continue;
        }
        let (plane, length) = shell_plane(points, config);
        measure.normal_length = scalar(length);
        measure.deviations =
            scalars(plane.points.iter().map(|p| plane.normal.dot(*p - plane.centroid).abs()));
        if is_usable_shell(&nodes, &measure) {
            shells.push(ParsedShell { id: element.id, stiff_id: element.stiff_id, nodes });
            planes.push(plane);
        }
    }
    (shells, planes)
}

/// Reference lines of vertical walls, with their heights.
fn wall_lines(mesh: &MeshData, names: &NodeNames, tolerance: f64) -> Vec<(f64, (DVec3, DVec3))> {
    let mut lines = Vec::new();
    for element in mesh.elements.iter().filter(|e| e.is_shell()) {
        let points = named_points(element, mesh, names);
        if points.len() < 3 || !upright(&points) {
            continue;
        }
        for i in 0..points.len() {
            let a = points[i];
            let b = points[(i + 1) % points.len()];
            if (a.z - b.z).abs() < tolerance && (b - a).length_squared() > 1e-4 {
                lines.push((a.z, (a, b)));
            }
        }
    }
    lines
}

fn named_points(element: &ElementData, mesh: &MeshData, names: &NodeNames) -> Vec<DVec3> {
    element
        .nodes
        .iter()
        .filter_map(|&n| names.get(n).and_then(|c| mesh.nodes.get(c)))
        .map(|p| vector(&p))
        .collect()
}

fn upright(points: &[DVec3]) -> bool {
    let normal = (points[1] - points[0]).cross(points[2] - points[0]);
    let length = normal.length();
    length >= 1e-7 && (normal.z / length).abs() <= 0.15
}

fn slab_cuts(mesh: &MeshData, names: &NodeNames, z: f64, config: &ReconstructionConfig) -> Vec<Edge> {
    let tolerance = number(config.tol_dist);
    let vertical: Vec<bool> = mesh
        .elements
        .iter()
        .map(|e| {
            let points = named_points(e, mesh, names);
            points.len() >= 3 && upright(&points)
        })
        .collect();
    let level: Vec<u32> = mesh
        .nodes
        .ids()
        .into_iter()
        .filter(|&n| mesh.nodes.get(n).is_some_and(|p| (vector(&p).z - z).abs() < tolerance))
        .collect();
    extract_cutting_edge_nodes_for_slab(
        &mesh.elements,
        &vertical,
        names,
        &level,
        config.split_slabs_by_walls,
        config.split_slabs_by_beams,
    )
}

/// Recovers slabs and walls.
fn reconstruct_panels(mesh: &MeshData, names: &NodeNames, config: &ReconstructionConfig) -> Vec<MacroPanel> {
    let lines = wall_lines(mesh, names, number(config.tol_dist));
    let (shells, planes) = parse_shells(mesh, names, config);
    let faces = coalesce(&shells);
    let centre = if faces.is_empty() {
        DVec3::ZERO
    } else {
        faces.iter().map(|f| planes[f.shell].centroid).sum::<DVec3>() / faces.len() as f64
    };
    let quantum = number(config.weld_tol) * 1e-6;
    let ranks: Vec<ShellRank> = faces
        .iter()
        .map(|f| {
            let centroid = planes[f.shell].centroid;
            let relative = centroid - centre;
            ShellRank {
                height: scalar((relative.z / quantum).round()),
                distance: scalar((relative.truncate().length() / quantum).round()),
                stiffness: shells[f.shell].stiff_id,
                x: scalar(centroid.x),
                y: scalar(centroid.y),
            }
        })
        .collect();
    let order = order_shells(&ranks);
    let clusters = cluster(&order, &faces.iter().map(|f| f.shell).collect::<Vec<_>>(), &planes, config);
    let sources: Vec<Vec<u32>> = faces.iter().map(|f| f.source_ids.clone()).collect();
    let found: Vec<Vec<MacroPanel>> = clusters
        .iter()
        .map(|c| cluster_panels(c, mesh, names, config, &lines, &shells, &planes, &faces.iter().map(|f| f.shell).collect::<Vec<_>>(), &sources))
        .collect();
    let mut panels: Vec<MacroPanel> = found.into_iter().flatten().collect();
    number_panels(&mut panels);
    panels
}

fn cluster(order: &[usize], shells: &[usize], planes: &[ShellPlane], config: &ReconstructionConfig) -> Vec<PlaneCluster> {
    let angle = number(config.tol_angle);
    let tolerance = number(config.tol_dist);
    let mut clusters: Vec<PlaneCluster> = Vec::new();
    for &face in order {
        let own = &planes[shells[face]];
        let orientation =
            classify_shell(&scalar(own.normal.z.abs()), &scalar(angle.cos()), &scalar(angle.sin()));
        let fits: Vec<ClusterFit> = clusters
            .iter()
            .map(|c| {
                let first = &planes[shells[c.members[0]]];
                let normal = cluster_normal(first, &c.orientation);
                let flat = own.points.iter().all(|p| (normal.dot(*p) + first.d).abs() <= tolerance);
                let run = own.normal.truncate().normalize_or_zero().dot(normal.truncate().normalize_or_zero());
                ClusterFit {
                    level: own.points.iter().all(|p| (p.z - first.centroid.z).abs() <= tolerance),
                    upright: run >= angle.cos() && flat,
                    sloped: own.normal.dot(normal) >= angle.cos() && flat,
                }
            })
            .collect();
        place_shell(&mut clusters, face, &orientation, &fits);
    }
    clusters
}

fn cluster_normal(first: &ShellPlane, orientation: &Orientation) -> DVec3 {
    if orientation.horizontal {
        DVec3::Z
    } else if orientation.vertical {
        first.normal.truncate().normalize().extend(0.0)
    } else {
        first.normal
    }
}

#[allow(clippy::too_many_arguments)]
fn cluster_panels(
    cluster: &PlaneCluster,
    mesh: &MeshData,
    names: &NodeNames,
    config: &ReconstructionConfig,
    lines: &[(f64, (DVec3, DVec3))],
    shells: &[ParsedShell],
    planes: &[ShellPlane],
    shell_of: &[usize],
    sources: &[Vec<u32>],
) -> Vec<MacroPanel> {
    let first = &planes[shell_of[cluster.members[0]]];
    let normal = cluster_normal(first, &cluster.orientation);
    let (u, v) = plane_basis(normal);
    let kind = panel_type(&cluster.orientation);
    let horizontal = kind == PanelType::Slab;
    let cuts = if horizontal { slab_cuts(mesh, names, first.centroid.z, config) } else { Vec::new() };
    let walls: Vec<(DVec3, DVec3)> = lines
        .iter()
        .filter(|(z, _)| horizontal && (z - first.centroid.z).abs() < number(config.tol_dist))
        .map(|(_, line)| *line)
        .collect();
    let faces: Vec<Face> = cluster
        .members
        .iter()
        .map(|&m| {
            let shell = &shells[shell_of[m]];
            let plane = &planes[shell_of[m]];
            let mut around: Vec<(f64, u32)> = plane
                .points
                .iter()
                .zip(&shell.nodes)
                .map(|(p, &n)| {
                    let rel = *p - plane.centroid;
                    (rel.dot(v).atan2(rel.dot(u)), n)
                })
                .collect();
            around.sort_by(|a, b| a.0.total_cmp(&b.0));
            Face { id: shell.id, nodes: around.into_iter().map(|(_, n)| n).collect() }
        })
        .collect();
    let stiffness: Vec<u32> = cluster.members.iter().map(|&m| shells[shell_of[m]].stiff_id).collect();
    let own: Vec<Vec<u32>> = cluster.members.iter().map(|&m| sources[m].clone()).collect();
    let mut panels = Vec::new();
    for group in panel_faces(&faces, &stiffness, &cuts) {
        let nodes: Vec<Vec<u32>> = group.iter().map(|&f| faces[f].nodes.clone()).collect();
        let Some(rings) = outlines(&nodes) else {
            continue;
        };
        let mut cleaned = Vec::new();
        let mut plain = Vec::new();
        for ring in &rings {
            let onto = |p: DVec3| p - normal * (normal.dot(p) + first.d);
            let planar: Vec<DVec3> =
                ring.iter().filter_map(|&n| mesh.nodes.get(n)).map(|p| onto(vector(&p))).collect();
            let snapped: Vec<DVec3> =
                snap_to_lines(&planar, &walls, number(config.simplify_tol)).into_iter().map(onto).collect();
            cleaned.push(simplify_ring(&snapped, number(config.min_edge), number(config.simplify_tol)));
            plain.push(planar);
        }
        let Some(rings) = arrange_rings(cleaned, u, v).or_else(|| arrange_rings(plain, u, v)) else {
            continue;
        };
        let (rings, filled_holes, filled_hole_area) = close_slivers(rings, u, v, number(config.simplify_tol));
        let shape = PanelShape {
            normal: point(normal),
            d: scalar(first.d),
            contours: rings.into_iter().map(|r| r.into_iter().map(point).collect()).collect(),
            filled_holes,
            filled_hole_area: scalar(filled_hole_area),
        };
        panels.push(panel_of_group(kind, &stiffness, &own, &group, shape));
    }
    panels
}

fn snap_to_lines(points: &[DVec3], lines: &[(DVec3, DVec3)], limit: f64) -> Vec<DVec3> {
    points
        .iter()
        .map(|&p| {
            let near: Vec<(DVec3, f64)> = lines.iter().map(|&(a, b)| project_in_plan(p, a, b)).collect();
            match find_nearest_line(&scalars(near.iter().map(|n| n.1)), &scalar(limit)) {
                Some(k) => near[k].0,
                None => p,
            }
        })
        .collect()
}

fn project_in_plan(p: DVec3, a: DVec3, b: DVec3) -> (DVec3, f64) {
    let ab = (b - a).truncate();
    let flat = p.truncate();
    if ab.length_squared() < 1e-8 {
        return (a.truncate().extend(p.z), (flat - a.truncate()).length());
    }
    let t = ((flat - a.truncate()).dot(ab) / ab.length_squared()).clamp(0.0, 1.0);
    let q = a.truncate() + t * ab;
    (q.extend(p.z), (flat - q).length())
}

/// Removes points within a distance budget.
fn simplify_ring(points: &[DVec3], min_edge: f64, deviation: f64) -> Vec<DVec3> {
    let limits = (scalar(min_edge), scalar(deviation));
    let mut contour = Contour::whole(points.len());
    loop {
        let result: Vec<DVec3> = contour.left.iter().map(|&k| points[k]).collect();
        let n = result.len();
        let removed = n > 3
            && (0..n).any(|i| {
                let (a, b, c) = (result[(i + n - 1) % n], result[i], result[(i + 1) % n]);
                let ac = c - a;
                if ac.length_squared() <= 1e-20 {
                    return false;
                }
                let t = ((b - a).dot(ac) / ac.length_squared()).clamp(0.0, 1.0);
                let mut measure = RemovalMeasure {
                    chord: scalar(ac.length_squared()),
                    error: scalar(b.distance(a + t * ac)),
                    side: scalar(a.distance(b).min(b.distance(c))),
                    bounded: true,
                    simple: true,
                };
                if !may_remove(&measure, &limits.0, &limits.1) {
                    return false;
                }
                let mut rest = result.clone();
                rest.remove(i);
                measure.bounded = points.iter().all(|p| near_ring(*p, &rest, deviation + 1e-12));
                measure.simple = !is_simple(&result) || is_simple(&rest);
                contour.take_out(i, &measure, &limits.0, &limits.1)
            });
        if !removed {
            return result;
        }
    }
}

/// Whether a ring has no side that meets another one but at their common point.
/// Repeated points count once.
fn is_simple(ring: &[DVec3]) -> bool {
    let area = |i: usize| ring[i].cross(ring[(i + 1) % ring.len()]);
    let (u, v) = plane_basis((0..ring.len()).map(area).sum::<DVec3>().normalize_or(DVec3::Z));
    let mut flat: Vec<(f64, f64)> = ring.iter().map(|p| (p.dot(u), p.dot(v))).collect();
    flat.dedup();
    while flat.len() > 1 && flat.first() == flat.last() {
        flat.pop();
    }
    let n = flat.len();
    let side = |i: usize| Line::new(flat[i], flat[(i + 1) % n]);
    n >= 3
        && (0..n).all(|i| {
            (i + 1..n).all(|j| match line_intersection(side(i), side(j)) {
                None => true,
                Some(LineIntersection::SinglePoint { .. }) => j == i + 1 || (i == 0 && j == n - 1),
                Some(LineIntersection::Collinear { .. }) => false,
            })
        })
}

fn near_ring(p: DVec3, ring: &[DVec3], distance: f64) -> bool {
    (0..ring.len()).any(|j| {
        let a = ring[j];
        let ab = ring[(j + 1) % ring.len()] - a;
        if ab.length_squared() <= 1e-20 {
            return false;
        }
        let t = ((p - a).dot(ab) / ab.length_squared()).clamp(0.0, 1.0);
        p.distance(a + t * ab) <= distance
    })
}

fn ring_measure(ring: &[DVec3], u: DVec3, v: DVec3) -> (RingMeasure, Polygon<f64>) {
    let line = planar_ring(ring, u, v);
    let finite = line.0.iter().all(|c| c.x.is_finite() && c.y.is_finite());
    let segments: Vec<_> = line.lines().collect();
    let mut simple = finite;
    for i in 0..segments.len() {
        simple &= segments[i].start != segments[i].end;
        for j in i + 1..segments.len() {
            let neighbours = j == i + 1 || (i == 0 && j == segments.len() - 1);
            simple &= neighbours || !simple || !segments[i].intersects(&segments[j]);
        }
    }
    let polygon = Polygon::new(line, Vec::new());
    let measure = RingMeasure {
        points: ring.len(),
        finite,
        simple,
        area: scalar(polygon.unsigned_area()),
        positive: polygon.signed_area() > 0.0,
    };
    (measure, polygon)
}

/// Puts the outer contour first and turns the contours the right way round, where
/// they form a polygon with holes.
fn arrange_rings(rings: Vec<Vec<DVec3>>, u: DVec3, v: DVec3) -> Option<Vec<Vec<DVec3>>> {
    if rings.iter().any(|r| r.len() < 3) {
        return None;
    }
    let (measures, mut polygons): (Vec<RingMeasure>, Vec<Polygon<f64>>) =
        rings.iter().map(|r| ring_measure(r, u, v)).unzip();
    let outer = outer_ring(&measures)?;
    polygons.swap(0, outer);
    let relations = RingRelations {
        inside: polygons.iter().map(|p| strictly_inside(&polygons[0], p)).collect(),
        clear: (0..polygons.len())
            .map(|i| (0..i).map(|j| !polygons[i].intersects(&polygons[j])).collect())
            .collect(),
    };
    let places = order_valid_rings(&measures, outer, &relations)?;
    Some(
        places
            .iter()
            .map(|place| {
                let mut ring = rings[place.ring].clone();
                if place.reversed {
                    ring.reverse();
                }
                ring
            })
            .collect(),
    )
}

fn strip_width(points: &[DVec2]) -> f64 {
    let mut width = f64::INFINITY;
    for j in 0..points.len() {
        let edge = points[(j + 1) % points.len()] - points[j];
        if edge.length_squared() <= 1e-20 {
            continue;
        }
        let across = DVec2::new(-edge.y, edge.x).normalize();
        let low = points.iter().map(|p| p.dot(across)).fold(f64::INFINITY, f64::min);
        let high = points.iter().map(|p| p.dot(across)).fold(f64::NEG_INFINITY, f64::max);
        width = width.min(high - low);
    }
    width
}

/// Closes narrow openings and says how many and how large they were.
fn close_slivers(rings: Vec<Vec<DVec3>>, u: DVec3, v: DVec3, tolerance: f64) -> (Vec<Vec<DVec3>>, usize, f64) {
    let flat: Vec<Vec<DVec2>> =
        rings.iter().map(|r| r.iter().map(|p| DVec2::new(p.dot(u), p.dot(v))).collect()).collect();
    let kept = fill_sliver_holes(&scalars(flat.iter().map(|r| strip_width(r))), &scalar(tolerance));
    let mut area = 0.0;
    for (i, points) in flat.iter().enumerate() {
        if !kept.contains(&i) {
            let origin = points[0];
            area += (0..points.len())
                .map(|j| (points[j] - origin).perp_dot(points[(j + 1) % points.len()] - origin))
                .sum::<f64>()
                .abs()
                * 0.5;
        }
    }
    let count = rings.len() - kept.len();
    (kept.iter().map(|&i| rings[i].clone()).collect(), count, area)
}

/// The levels of slabs, ascending.
fn slab_levels(panels: &[MacroPanel], tolerance: f64) -> Vec<f64> {
    let heights: Vec<f64> = panels
        .iter()
        .filter(|p| p.panel_type == PanelType::Slab)
        .flat_map(|p| p.polygons.iter().flatten())
        .map(|q| number(q[2]))
        .collect();
    let mut levels: Vec<f64> = Vec::new();
    for k in order_by_distance(&scalars(heights.iter().copied())) {
        let gap = levels.last().map(|last| scalar((heights[k] - last).abs()));
        if is_new_level(&gap, &scalar(tolerance)) {
            levels.push((heights[k] * 1000.0).round() / 1000.0);
        }
    }
    levels
}

/// The vertical share of a direction.
fn rise(start: DVec3, end: DVec3) -> f64 {
    let d = end - start;
    (d.z / d.length()).abs()
}

/// Recovers bars.
fn reconstruct_bars(mesh: &MeshData, names: &NodeNames, levels: &[f64], config: &ReconstructionConfig) -> Vec<MacroBar> {
    let place = |node: u32| mesh.nodes.get(node).map(|p| vector(&p));
    let mut bars = BarReconstructor::of_elements(&mesh.elements, names);
    let mut result = Vec::new();
    let ends = |e: &ElementData| [0, 1].map(|k| names.canonical(e.nodes[k]));
    let along = |e: &ElementData| {
        let [a, b] = ends(e).map(place);
        Some(b? - a?)
    };
    let length = |e: &ElementData| along(e).map(|d| scalar(d.length()));
    let lengths = mesh.elements.iter().map(|e| if e.is_bar() { length(e) } else { None }).collect();
    let mut from = 0;
    while let Some(i) = bars.next_start(&mesh.elements, &lengths, from) {
        from = i + 1;
        let element = &mesh.elements[i];
        let [a, b] = ends(element);
        let Some(direction) = along(element).map(|d| d.normalize()) else {
            continue;
        };
        bars.mark(element.id);
        let mut walk = |start: u32, previous: u32, along: DVec3| {
            let mut trace = Trace {
                stiffness: element.stiff_id,
                current: start,
                previous,
                nodes: Vec::new(),
                elements: Vec::new(),
            };
            loop {
                let at = |node: u32| place(node).unwrap_or(DVec3::NAN);
                let options = bars.options(&trace);
                let steps = options
                    .iter()
                    .map(|link| {
                        let d = at(link.node) - at(trace.current);
                        Step { length: scalar(d.length()), alignment: scalar(d.normalize().dot(along)) }
                    })
                    .collect();
                match next_step(&steps) {
                    Some(k) => bars.follow(&mut trace, options[k]),
                    None => break trace,
                }
            }
        };
        let forward = walk(b, a, direction);
        let backward = walk(a, b, -direction);
        let chain = chain_of(a, b, element.id, &backward, &forward);
        let points: Vec<DVec3> = chain.nodes.iter().filter_map(|&n| place(n)).collect();
        if points.len() != chain.nodes.len() {
            continue;
        }
        let last = points.len() - 1;
        let column = classify_bar(&scalar(rise(points[0], points[last]))) == BarType::Column;
        let tolerance = number(config.tol_dist);
        let at_level: Vec<bool> =
            points.iter().map(|p| levels.iter().any(|z| (p.z - z).abs() < tolerance)).collect();
        let cuts = cut_places(&at_level, column);
        let straight: Vec<bool> =
            cuts.windows(2).map(|w| is_straight(&stretch(&points[w[0]..=w[1]]), &config.simplify_tol)).collect();
        for piece in pieces(&cuts, &straight) {
            let (start, end) = (points[piece.low], points[piece.high]);
            let measure = PieceMeasure {
                start: point(start),
                end: point(end),
                length: scalar(start.distance(end)),
                rise: scalar(rise(start, end)),
            };
            result.push(bar_of_piece(&chain, &piece, element.stiff_id, &measure));
        }
    }
    result
}

fn stretch(points: &[DVec3]) -> StretchMeasure {
    let start = points[0];
    let d = points[points.len() - 1] - start;
    let deviation = |p: &DVec3| {
        let t = ((*p - start).dot(d) / d.length_squared()).clamp(0.0, 1.0);
        p.distance(start + t * d)
    };
    StretchMeasure { length: scalar(d.length()), deviations: scalars(points.iter().map(deviation)) }
}

fn element(id: u32, elem_type: u32, stiff_id: u32, nodes: Vec<u32>) -> ElementData {
    ElementData { id, elem_type, stiff_id, nodes }
}

fn node_map(entries: &[(u32, DVec3)]) -> NodeMap {
    let mut nodes = NodeMap::new();
    for (id, p) in entries {
        nodes.insert(*id, point(*p));
    }
    nodes
}

#[test]
fn welding_crosses_cell_boundaries_but_not_long_chains() {
    let nodes = node_map(&[
        (1, DVec3::new(0.009, 0.0, 0.0)),
        (2, DVec3::new(0.011, 0.0, 0.0)),
        (3, DVec3::new(0.020, 0.0, 0.0)),
    ]);
    let map = canonicalize_nodes(&nodes, 0.01);
    assert_eq!(map.get(2), Some(1));
    assert_eq!(map.get(3), Some(3));
    for id in nodes.ids() {
        let representative = map.get(id).unwrap();
        let (p, q) = (nodes.get(id).unwrap(), nodes.get(representative).unwrap());
        assert!(vector(&p).distance(vector(&q)) <= 0.01);
    }
}

#[test]
fn welding_is_independent_of_insertion_order() {
    let entries = [(9, DVec3::ZERO), (2, DVec3::new(0.0005, 0.0, 0.0))];
    let reversed = [entries[1], entries[0]];
    let a = canonicalize_nodes(&node_map(&entries), 0.001);
    let b = canonicalize_nodes(&node_map(&reversed), 0.001);
    assert_eq!([a.get(2), a.get(9)], [b.get(2), b.get(9)]);
    assert_eq!([a.get(2), a.get(9)], [Some(2), Some(2)]);
    assert_eq!(count_welded(&a, &vec![2, 9]), 1);
}

#[test]
fn nodes_without_a_place_are_not_welded() {
    let nodes = node_map(&[(1, DVec3::ZERO), (2, DVec3::new(f64::NAN, 0., 0.)), (3, DVec3::ZERO)]);
    let map = canonicalize_nodes(&nodes, 0.001);
    assert_eq!([map.get(1), map.get(2), map.get(3)], [Some(1), None, Some(1)]);
    assert_eq!(map.canonical(2), 2);
}

#[test]
fn node_table_gives_back_what_was_put_in() {
    let nodes = node_map(&[(7, DVec3::X), (3, DVec3::Y), (7, DVec3::Z)]);
    assert_eq!(nodes.ids(), vec![3, 7]);
    assert_eq!(nodes.get(7), Some(point(DVec3::Z)));
    assert_eq!(nodes.get(3), Some(point(DVec3::Y)));
    assert_eq!(nodes.get(4), None);
    assert!(nodes.contains_key(3) && !nodes.contains_key(4));
}

#[test]
fn preserves_single_node_and_unknown_elements_without_renumbering() {
    let mesh =
        LiraParser::parse_bytes(b"(4/0 0 0/1 0 0/0 1 0/)(1/56 1 1/200 1 1 2 3/42 2 1 2 3/10 3 1 2/)").unwrap();
    assert_eq!(mesh.elements.len(), 4);
    assert_eq!(mesh.elements[2].id, 3);
    assert!(!mesh.elements[1].is_shell());
    assert!(!mesh.elements[1].is_bar());
    assert!(mesh.elements[2].is_shell());
}

#[test]
fn malformed_tokens_and_references_fail_instead_of_shifting_geometry() {
    for content in [
        "(4/0 junk 0 0/)(1/56 1 1/)",
        "(4/NaN 0 0/)(1/56 1 1/)",
        "(4/0 0 0/)(1/56 junk 1 1/)",
        "(4/0 0 0/)(1/56 1 2/)",
        "(4/0 0 0/)(1/42 1 1/)",
    ] {
        assert!(LiraParser::parse_bytes(content.as_bytes()).is_err(), "{content}");
    }
}

#[test]
fn coordinates_are_read_exactly() {
    let mesh = LiraParser::parse_bytes(b"(4/0.1 -2.5e3 1e-9/)(1/56 1 1/)").unwrap();
    assert_eq!(mesh.nodes.get(1), Some(point(DVec3::new(0.1, -2500.0, 1e-9))));
    assert_eq!(mesh.nodes.ids(), vec![1]);
    assert_eq!((mesh.elements[0].id, mesh.elements[0].elem_type, mesh.elements[0].stiff_id), (1, 56, 1));
    assert_eq!(mesh.elements[0].nodes, vec![1]);
}

#[test]
fn scheme_errors_are_told_apart() {
    let error = |content: &str| LiraParser::parse_bytes(content.as_bytes()).unwrap_err();
    assert!(matches!(error("(1/56 1 1/)"), LiraError::NoNodes));
    assert!(matches!(error("(4/0 0 0/)"), LiraError::NoElements));
    assert!(matches!(error("(4/0 0/)(1/56 1 1/)"), LiraError::BadNode(_)));
    assert!(matches!(error("(4/0 0 0/)(1/56/)"), LiraError::BadElement(_)));
    assert!(matches!(error("(4/0 0 0/)(1/56 1 9/)"), LiraError::UnknownNode(_)));
    assert!(!error("(4/0 0 0/)").message().is_empty());
}

fn bar(id: u32, a: u32, b: u32) -> ElementData {
    element(id, 10, 1, vec![a, b])
}

fn no_names() -> NodeNames {
    NodeNames::new()
}

#[test]
fn branch_is_preserved_and_each_source_element_is_accounted_for() {
    let mesh = MeshData {
        nodes: node_map(&[
            (1, DVec3::ZERO),
            (2, DVec3::X),
            (3, DVec3::X * 2.),
            (4, DVec3::new(1., 1., 0.)),
        ]),
        elements: vec![bar(1, 1, 2), bar(2, 2, 3), bar(3, 2, 4)],
    };
    let bars = reconstruct_bars(&mesh, &no_names(), &[], &ReconstructionConfig::default());
    assert_eq!(bars.len(), 3);
    assert!(bars.iter().all(|b| b.start_node_id == 2 || b.end_node_id == 2));
    let mut ids: Vec<_> = bars.iter().flat_map(|b| b.source_element_ids.iter().copied()).collect();
    ids.sort_unstable();
    assert_eq!(ids, vec![1, 2, 3]);
}

#[test]
fn support_stops_merging_but_plain_subdivision_does_not() {
    let mut mesh = MeshData {
        nodes: node_map(&[(1, DVec3::ZERO), (2, DVec3::X), (3, DVec3::X * 2.)]),
        elements: vec![bar(1, 1, 2), bar(2, 2, 3)],
    };
    let config = ReconstructionConfig::default();
    let bars = reconstruct_bars(&mesh, &no_names(), &[], &config);
    assert_eq!(bars.len(), 1);
    assert_eq!(bars[0].source_element_ids, vec![1, 2]);
    mesh.elements.push(element(3, 56, 1, vec![2]));
    assert_eq!(reconstruct_bars(&mesh, &no_names(), &[], &config).len(), 2);
}

#[test]
fn column_is_cut_at_slab_levels() {
    let mesh = MeshData {
        nodes: node_map(&[(1, DVec3::ZERO), (2, DVec3::Z * 3.), (3, DVec3::Z * 6.)]),
        elements: vec![bar(1, 1, 2), bar(2, 2, 3)],
    };
    let config = ReconstructionConfig::default();
    let whole = reconstruct_bars(&mesh, &no_names(), &[], &config);
    assert_eq!(whole.len(), 1);
    assert_eq!(whole[0].bar_type, BarType::Column);
    assert_eq!(number(whole[0].length), 6.);
    let cut = reconstruct_bars(&mesh, &no_names(), &[3.], &config);
    assert_eq!(cut.len(), 2);
    let sources: Vec<_> = cut.iter().map(|b| b.source_element_ids.clone()).collect();
    assert_eq!(sources, vec![vec![1], vec![2]]);
}

fn square(x: f64, y: f64, size: f64) -> Vec<DVec3> {
    vec![
        DVec3::new(x, y, 0.0),
        DVec3::new(x + size, y, 0.0),
        DVec3::new(x + size, y + size, 0.0),
        DVec3::new(x, y + size, 0.0),
    ]
}

#[test]
fn small_hole_is_preserved_and_ordered_after_outer() {
    let rings =
        arrange_rings(vec![square(1.0, 1.0, 0.3), square(0.0, 0.0, 4.0)], DVec3::X, DVec3::Y).unwrap();
    assert_eq!(rings.len(), 2);
    assert_eq!(rings[0], square(0.0, 0.0, 4.0));
}

#[test]
fn crossed_touching_and_nested_holes_are_rejected() {
    let crossed = vec![
        DVec3::new(0., 0., 0.),
        DVec3::new(3., 2., 0.),
        DVec3::new(0., 2., 0.),
        DVec3::new(2., 0., 0.),
    ];
    assert!(arrange_rings(vec![crossed], DVec3::X, DVec3::Y).is_none());
    assert!(arrange_rings(vec![square(0., 0., 4.), square(0., 1., 0.3)], DVec3::X, DVec3::Y).is_none());
    assert!(arrange_rings(
        vec![square(0., 0., 4.), square(1., 1., 2.), square(1.5, 1.5, 0.3)],
        DVec3::X,
        DVec3::Y
    )
    .is_none());
}

fn two_shells(slope: f64, different_stiffness: bool) -> MeshData {
    MeshData {
        nodes: node_map(&[
            (1, DVec3::new(0., 0., 0.)),
            (2, DVec3::new(2., 0., 2. * slope)),
            (3, DVec3::new(2., 2., 2. * slope)),
            (4, DVec3::new(0., 2., 0.)),
        ]),
        elements: vec![
            element(1, 42, 1, vec![1, 2, 3]),
            element(2, 42, if different_stiffness { 2 } else { 1 }, vec![4, 3, 1]),
        ],
    }
}

fn panels_of(mesh: &MeshData, config: &ReconstructionConfig) -> Vec<MacroPanel> {
    let names = canonicalize_nodes(&mesh.nodes, number(config.weld_tol));
    reconstruct_panels(mesh, &names, config)
}

#[test]
fn reversed_shell_winding_merges_and_preserves_incline() {
    let panels = panels_of(&two_shells(0.3, false), &ReconstructionConfig::default());
    assert_eq!(panels.len(), 1);
    assert_eq!(panels[0].panel_type, PanelType::InclinedPanel);
    assert_eq!(panels[0].source_element_ids.len(), 2);
    let normal = vector(&panels[0].plane_normal);
    for ring in &panels[0].polygons {
        for p in ring {
            assert!((normal.dot(vector(p)) + number(panels[0].plane_d)).abs() < 1e-10);
        }
    }
}

#[test]
fn stiffness_boundary_is_retained() {
    let panels = panels_of(&two_shells(0.0, true), &ReconstructionConfig::default());
    assert_eq!(panels.len(), 2);
    assert_ne!(panels[0].stiffness_id, panels[1].stiffness_id);
}

#[test]
fn duplicate_faces_are_not_exported_as_valid_surface() {
    let mut mesh = two_shells(0.0, false);
    mesh.elements.push(element(3, 42, 1, vec![1, 2, 3]));
    let panels = panels_of(&mesh, &ReconstructionConfig::default());
    assert_eq!(panels.len(), 1);
    assert_eq!(panels[0].source_element_ids.len(), 3);
    assert_eq!(panels[0].polygons[0].len(), 4);
}

#[test]
fn small_crack_is_welded_into_one_planar_surface() {
    let mesh = MeshData {
        nodes: node_map(&[
            (1, DVec3::new(0., 0., 0.)),
            (2, DVec3::new(2., 0., 0.)),
            (3, DVec3::new(2., 2., 0.)),
            (4, DVec3::new(0.005, 0., 0.002)),
            (5, DVec3::new(2.005, 2., 0.002)),
            (6, DVec3::new(0., 2., 0.002)),
        ]),
        elements: vec![element(1, 42, 1, vec![1, 2, 3]), element(2, 42, 1, vec![4, 5, 6])],
    };
    let mut config = ReconstructionConfig::default();
    config.weld_tol = scalar(0.01);
    let panels = panels_of(&mesh, &config);
    assert_eq!(panels.len(), 1);
    assert_eq!(panels[0].fe_count, 2);
    assert!(panels[0].polygons[0].iter().all(|p| {
        let z = number(p[2]);
        (z + number(panels[0].plane_d)).abs() < 1e-12 && z.abs() <= 0.002
    }));
}

#[test]
fn narrow_notch_is_removed_within_budget() {
    let ring = vec![
        DVec3::ZERO,
        DVec3::new(1., 0., 0.),
        DVec3::new(1., 0.005, 0.),
        DVec3::new(1.005, 0., 0.),
        DVec3::new(2., 0., 0.),
        DVec3::new(2., 2., 0.),
        DVec3::new(0., 2., 0.),
    ];
    let cleaned = simplify_ring(&ring, 0.03, 0.01);
    assert_eq!(cleaned.len(), 4);
    assert!(arrange_rings(vec![cleaned], DVec3::X, DVec3::Y).is_some());
}

#[test]
fn annulus_reconstruction_keeps_small_opening() {
    let points =
        [(0., 0.), (4., 0.), (4., 4.), (0., 4.), (1., 1.), (1.3, 1.), (1.3, 1.3), (1., 1.3)];
    let entries: Vec<(u32, DVec3)> =
        points.iter().enumerate().map(|(i, &(x, y))| ((i + 1) as u32, DVec3::new(x, y, 0.))).collect();
    let mesh = MeshData {
        nodes: node_map(&entries),
        elements: [[1, 2, 6, 5], [2, 3, 7, 6], [3, 4, 8, 7], [4, 1, 5, 8]]
            .iter()
            .enumerate()
            .map(|(i, ids)| element((i + 1) as u32, 44, 1, ids.to_vec()))
            .collect(),
    };
    let panels = panels_of(&mesh, &ReconstructionConfig::default());
    assert_eq!(panels.len(), 1);
    assert_eq!(panels[0].polygons.len(), 2);
    assert_eq!(panels[0].fe_count, 4);
}

#[test]
fn heals_long_thin_void_but_retains_small_regular_opening() {
    let ring = |points: [[f64; 3]; 4]| points.map(DVec3::from_array).to_vec();
    let outer = ring([[0., 0., 0.], [10., 0., 0.], [10., 10., 0.], [0., 10., 0.]]);
    let slit = ring([[1., 1., 0.], [8., 1., 0.], [8., 1.001, 0.], [1., 1.001, 0.]]);
    let hole = ring([[2., 2., 0.], [2.3, 2., 0.], [2.3, 2.3, 0.], [2., 2.3, 0.]]);
    let (rings, count, area) = close_slivers(vec![outer, slit, hole], DVec3::X, DVec3::Y, 0.01);
    assert_eq!(rings.len(), 2);
    assert_eq!(count, 1);
    assert!((area - 0.007).abs() < 1e-12);
}

#[test]
fn geometry_does_not_depend_on_element_traversal_order() {
    let mut mesh = MeshData {
        nodes: node_map(&[
            (1, DVec3::new(0., 0., 0.)),
            (2, DVec3::new(2., 0., 0.08)),
            (3, DVec3::new(2., 2., 0.08)),
            (4, DVec3::new(0., 2., 0.)),
        ]),
        elements: vec![element(1, 42, 1, vec![1, 2, 3]), element(2, 42, 1, vec![1, 3, 4])],
    };
    let config = ReconstructionConfig::default();
    let a = panels_of(&mesh, &config);
    mesh.elements.reverse();
    let b = panels_of(&mesh, &config);
    assert_eq!(format!("{a:?}"), format!("{b:?}"));
}

#[test]
fn slab_levels_are_ascending_and_apart() {
    let mut mesh = two_shells(0.0, false);
    for (n, p) in [(11, [0., 0., 3.]), (12, [2., 0., 3.]), (13, [2., 2., 3.])] {
        mesh.nodes.insert(n, point(DVec3::from_array(p)));
    }
    mesh.elements.push(element(3, 42, 1, vec![11, 12, 13]));
    let panels = panels_of(&mesh, &ReconstructionConfig::default());
    assert_eq!(slab_levels(&panels, 0.15), vec![0., 3.]);
}

#[test]
fn counts_and_messages_cover_every_element() {
    let types = vec![PanelType::Slab, PanelType::Wall, PanelType::Slab];
    assert_eq!(count_panels(&types, PanelType::Slab), 2);
    assert_eq!(count_panels(&types, PanelType::InclinedPanel), 0);
    assert_eq!(count_bars(&vec![BarType::Brace], BarType::Brace), 1);
    let elements = vec![
        element(1, 44, 1, vec![1, 2, 3, 4]),
        bar(2, 1, 2),
        element(3, 56, 1, vec![1]),
        element(4, 200, 1, vec![1, 2, 3]),
        element(5, 56, 1, vec![2]),
    ];
    assert_eq!(missing_shells(&elements, &vec![]), vec![1]);
    assert_eq!(missing_shells(&elements, &vec![1]), Vec::<u32>::new());
    assert_eq!(missing_bars(&elements, &vec![]), vec![2]);
    let excluded = excluded_elements(&elements);
    let listed: BTreeMap<u32, Vec<u32>> =
        excluded.iter().map(|k| (k.kind, k.ids.clone())).collect();
    assert_eq!(listed, BTreeMap::from([(56, vec![3, 5]), (200, vec![4])]));
    assert_eq!(
        excluded_message(&excluded[0]),
        "Тип КЭ 56: 2 элементов сохранены во входных данных, не реконструируются как поверхности/стержни; ID: [3, 5]"
    );
    assert_eq!(
        listed_message("Стержневые КЭ без восстановленной оси: ", &vec![2, 7]),
        "Стержневые КЭ без восстановленной оси: [2, 7]"
    );
    assert_eq!(
        short_edges_message(4),
        "Панель 4: остались короткие ребра; требуется проверка перед перебивкой"
    );
}

#[test]
fn drawing_has_layers_lines_and_closed_contours() {
    let text = |x: &str| x.to_string();
    let bars = vec![DxfBar {
        bar_type: BarType::Column,
        coordinates: ["1", "2", "3", "1", "2", "4.5"].map(text),
    }];
    let corner = |x: &str, y: &str| [text(x), text(y), text("0")];
    let panels = vec![DxfPanel {
        panel_type: PanelType::Slab,
        polygons: vec![
            vec![corner("0", "0"), corner("1", "0"), corner("0", "1")],
            vec![corner("0", "0"), corner("1", "0")],
        ],
    }];
    let drawing = DxfExporter::drawing(&bars, &panels);
    assert!(drawing.starts_with("0\nSECTION\n2\nHEADER\n0\nENDSEC\n0\nSECTION\n2\nTABLES\n0\nTABLE\n2\nLAYER\n70\n6\n"));
    assert!(drawing.contains("0\nLAYER\n2\nSLABS\n70\n0\n62\n1\n6\nCONTINUOUS\n"));
    assert!(drawing.contains("0\nLINE\n8\nCOLUMNS\n10\n1\n20\n2\n30\n3\n11\n1\n21\n2\n31\n4.5\n"));
    assert_eq!(drawing.matches("POLYLINE").count(), 1);
    assert_eq!(drawing.matches("VERTEX").count(), 3);
    assert!(drawing.contains("0\nVERTEX\n8\nSLABS\n10\n1\n20\n0\n30\n0\n70\n32\n"));
    assert!(drawing.ends_with("0\nSEQEND\n0\nENDSEC\n0\nEOF\n"));
    let mut layer = String::new();
    DxfExporter::write_layer(&mut layer, "WALLS", 3);
    assert_eq!(layer, "0\nLAYER\n2\nWALLS\n70\n0\n62\n3\n6\nCONTINUOUS\n");
    let mut hidden = String::new();
    DxfExporter::write_layer(&mut hidden, "AXES", i16::MIN);
    assert_eq!(hidden, "0\nLAYER\n2\nAXES\n70\n0\n62\n-32768\n6\nCONTINUOUS\n");
}

#[test]
fn default_tolerances_are_those_of_a_model_in_metres() {
    let config = ReconstructionConfig::default();
    assert_eq!(number(config.tol_dist), 0.15);
    assert_eq!(number(config.tol_angle), 0.08);
    assert_eq!(number(config.simplify_tol), 0.01);
    assert_eq!(number(config.weld_tol), 0.001);
    assert_eq!(number(config.min_edge), 0.03);
    assert_eq!(number(config.joint_tol), 0.05);
    assert_eq!(number(config.repair_max_tol), 0.15);
    assert!(config.split_slabs_by_walls && config.split_slabs_by_beams);
    assert!(config.has_usable_lengths());
    let mut broken = config;
    broken.min_edge = scalar(0.0);
    assert!(!broken.has_usable_lengths());
    broken.min_edge = scalar(f64::NAN);
    assert!(!broken.has_usable_lengths());
}

#[test]
fn short_edges_and_straight_corners_are_left_out() {
    let lengths = scalars([1.0, 0.001, 1.0, 1.0]);
    assert_eq!(remove_short_edges_3d(&lengths, &scalar(0.03)), vec![0, 2, 3]);
    let few = scalars([1.0, 0.001, 0.001, 1.0]);
    assert_eq!(remove_short_edges_3d(&few, &scalar(0.03)), vec![0, 1, 2, 3]);
    let corner = |before: f64, after: f64, turn: f64| Corner {
        length_before: scalar(before),
        length_after: scalar(after),
        turn: scalar(turn),
    };
    let corners = vec![
        corner(1.0, 1.0, 0.0),
        corner(1.0, 1.0, 0.9999),
        corner(1.0, 0.0, 0.0),
        corner(1.0, 1.0, -1.0),
    ];
    assert_eq!(clean_polygon_coords_3d(&corners, &scalar(1e-4), &scalar(0.999)), vec![0, 3]);
}

#[test]
fn nearest_line_within_the_limit_is_found() {
    assert_eq!(find_nearest_line(&scalars([0.5, 0.2, 0.3]), &scalar(0.4)), Some(1));
    assert_eq!(find_nearest_line(&scalars([0.5, 0.4]), &scalar(0.4)), None);
    assert_eq!(find_nearest_line(&vec![], &scalar(0.4)), None);
}

#[test]
fn walk_takes_the_first_link_that_goes_straight_on() {
    let step = |length: f64, alignment: f64| Step { length: scalar(length), alignment: scalar(alignment) };
    assert_eq!(next_step(&vec![step(1.0, 0.5), step(1.0, 0.9995), step(2.0, 1.0)]), Some(1));
    assert_eq!(next_step(&vec![step(1e-6, 1.0), step(1.0, 0.999), step(f64::NAN, 1.0)]), None);
    assert!(is_degenerate(&scalar(1e-7)) && !is_degenerate(&scalar(1e-6)));
    let measure = StretchMeasure { length: scalar(1.0), deviations: scalars([0.0, 0.02]) };
    assert!(is_straight(&measure, &scalar(0.02)));
    assert!(!is_straight(&measure, &scalar(0.01)));
}
