//! The triangles of a surface: how often each edge occurs, whether they conform
//! to the constraints, and what is wrong with each.
use vstd::prelude::*;
use crate::edges::{distinct_edges, edges_ascend, find_edge, key, key_of, lists_edge, lists_edges, same_edge, Edge};
use crate::ordering::{ascending_indices, find_index, unique_indices};
use crate::scalar::Scalar;

verus! {

pub type Face = [usize; 3];

pub open spec fn side(face: Face, i: int) -> Edge {
    if i == 0 {
        key_of(face[0], face[1])
    } else if i == 1 {
        key_of(face[1], face[2])
    } else {
        key_of(face[2], face[0])
    }
}

pub open spec fn occurs(face: Face, i: int, edge: Edge) -> nat {
    if side(face, i) == edge {
        1
    } else {
        0
    }
}

/// How often an edge is a side of the first faces.
pub open spec fn side_count(faces: Seq<Face>, edge: Edge, upto: int) -> nat
    decreases upto,
{
    if upto <= 0 {
        0
    } else {
        side_count(faces, edge, upto - 1) + occurs(faces[upto - 1], 0, edge) + occurs(
            faces[upto - 1],
            1,
            edge,
        ) + occurs(faces[upto - 1], 2, edge)
    }
}

pub open spec fn sides(faces: Seq<Face>) -> Seq<Edge> {
    Seq::new(3 * faces.len(), |k: int| side(faces[k / 3], k % 3))
}

/// The edges of faces, ascending, with the number of their occurrences.
#[derive(Debug)]
pub struct FaceEdges {
    pub edges: Vec<Edge>,
    pub counts: Vec<usize>,
}

pub open spec fn counted(result: FaceEdges, faces: Seq<Face>, upto: int) -> bool {
    &&& result.counts@.len() == result.edges@.len()
    &&& forall|k: int|
        0 <= k < result.edges@.len() ==> #[trigger] result.counts@[k] == side_count(
            faces,
            result.edges@[k],
            upto,
        )
}

proof fn side_count_bounded(faces: Seq<Face>, edge: Edge, upto: int)
    requires
        0 <= upto,
    ensures
        side_count(faces, edge, upto) <= 3 * upto,
    decreases upto,
{
    if upto > 0 {
        side_count_bounded(faces, edge, upto - 1);
    }
}

fn face_side(face: &Face, i: usize) -> (r: Edge)
    requires
        i < 3,
    ensures
        r == side(*face, i as int),
{
    if i == 0 {
        key(face[0], face[1])
    } else if i == 1 {
        key(face[1], face[2])
    } else {
        key(face[2], face[0])
    }
}

/// How often an edge is one of the first sides of a face.
spec fn sides_before(face: Face, edge: Edge, upto: int) -> nat
    decreases upto,
{
    if upto <= 0 {
        0
    } else {
        sides_before(face, edge, upto - 1) + occurs(face, upto - 1, edge)
    }
}

/// Counts the occurrences of every edge.
#[verifier::loop_isolation(false)]
pub fn count_sides(faces: &Vec<Face>) -> (r: FaceEdges)
    requires
        3 * faces@.len() <= usize::MAX,
    ensures
        lists_edges(r.edges@, sides(faces@)),
        counted(r, faces@, faces@.len() as int),
{
    let mut all: Vec<Edge> = Vec::new();
    let mut f: usize = 0;
    while f < faces.len()
        invariant
            f <= faces.len(),
            all@ =~= sides(faces@).take(3 * f as int),
        decreases faces.len() - f,
    {
        let face: Face = faces[f];
        let ghost before = all@;
        all.push(face_side(&face, 0));
        all.push(face_side(&face, 1));
        all.push(face_side(&face, 2));
        proof {
            let wanted = sides(faces@).take(3 * f + 3);
            assert forall|k: int| 0 <= k < wanted.len() implies all@[k] == wanted[k] by {
                if k < 3 * f {
                    assert(before[k] == sides(faces@)[k]);
                } else {
                    assert(k / 3 == f && k % 3 == k - 3 * f) by (nonlinear_arith)
                        requires
                            3 * f <= k < 3 * f + 3,
                            f >= 0,
                    ;
                }
            }
            assert(all@ =~= wanted);
            assert(3 * f + 3 == 3 * (f + 1)) by (nonlinear_arith);
        }
        f += 1;
    }
    assert(sides(faces@).take(3 * f as int) =~= sides(faces@));
    let edges = distinct_edges(&all);
    let mut counts: Vec<usize> = Vec::new();
    let mut k: usize = 0;
    while k < edges.len()
        invariant
            k <= edges.len(),
            counts.len() == k,
            forall|m: int| 0 <= m < k ==> #[trigger] counts@[m] == 0,
        decreases edges.len() - k,
    {
        counts.push(0);
        k += 1;
    }
    let mut f: usize = 0;
    while f < faces.len()
        invariant
            f <= faces.len(),
            counts@.len() == edges@.len(),
            forall|m: int| 0 <= m < edges@.len() ==> #[trigger] counts@[m] == side_count(faces@, edges@[m], f as int),
        decreases faces.len() - f,
    {
        let face: Face = faces[f];
        let mut i: usize = 0;
        while i < 3
            invariant
                f < faces.len(),
                face == faces@[f as int],
                i <= 3,
                counts@.len() == edges@.len(),
                forall|m: int| 0 <= m < edges@.len() ==> #[trigger] counts@[m] == side_count(faces@, edges@[m], f as int) + sides_before(face, edges@[m], i as int),
            decreases 3 - i,
        {
            let edge: Edge = face_side(&face, i);
            proof {
                let index = 3 * f + i;
                assert(index / 3 == f && index % 3 == i) by (nonlinear_arith)
                    requires
                        index == 3 * f + i,
                        0 <= i < 3,
                        f >= 0,
                ;
                assert(3 * f + i < 3 * faces@.len()) by (nonlinear_arith)
                    requires
                        f < faces@.len(),
                        i < 3,
                ;
                assert(sides(faces@)[index as int] == edge);
                assert(sides(faces@).contains(edge));
                assert(edges@.contains(edge));
            }
            match find_edge(&edges, &edge) {
                Some(m) => {
                    let ghost before = counts@;
                    proof {
                        side_count_bounded(faces@, edge, f as int);
                        sides_before_bounded(face, edge, i as int);
                        assert(counts@[m as int] == side_count(faces@, edges@[m as int], f as int) + sides_before(face, edges@[m as int], i as int));
                    }
                    let count: usize = counts[m] + 1;
                    counts.set(m, count);
                    proof {
                        assert forall|n: int| 0 <= n < edges@.len() implies #[trigger] counts@[n] == side_count(faces@, edges@[n], f as int) + sides_before(face, edges@[n], i + 1) by {
                            assert(before[n] == side_count(faces@, edges@[n], f as int) + sides_before(face, edges@[n], i as int));
                            if n != m {
                                if n < m {
                                    assert(crate::edges::edge_before(edges@[n], edges@[m as int]));
                                } else {
                                    assert(crate::edges::edge_before(edges@[m as int], edges@[n]));
                                }
                                assert(edges@[n] != edge);
                            }
                        }
                    }
                },
                None => {
                    assert(false);
                },
            }
            i += 1;
        }
        proof {
            assert forall|m: int| 0 <= m < edges@.len() implies #[trigger] counts@[m] == side_count(faces@, edges@[m], f + 1) by {
                reveal_with_fuel(sides_before, 4);
            }
        }
        f += 1;
    }
    FaceEdges { edges, counts }
}

proof fn sides_before_bounded(face: Face, edge: Edge, upto: int)
    requires
        0 <= upto,
    ensures
        sides_before(face, edge, upto) <= upto,
    decreases upto,
{
    if upto > 0 {
        sides_before_bounded(face, edge, upto - 1);
    }
}

proof fn uncounted(faces: Seq<Face>, edge: Edge, upto: int)
    requires
        0 <= upto <= faces.len(),
        !sides(faces).contains(edge),
    ensures
        side_count(faces, edge, upto) == 0,
    decreases upto,
{
    if upto > 0 {
        uncounted(faces, edge, upto - 1);
        let f = upto - 1;
        assert forall|i: int| 0 <= i < 3 implies side(faces[f], i) != edge by {
            let index = 3 * f + i;
            assert(index / 3 == f && index % 3 == i) by (nonlinear_arith)
                requires
                    index == 3 * f + i,
                    0 <= i < 3,
                    f >= 0,
            ;
            assert(3 * f + i < 3 * faces.len()) by (nonlinear_arith)
                requires
                    f < faces.len(),
                    i < 3,
            ;
            assert(sides(faces)[index] == side(faces[f], i));
        }
        assert(side(faces[f], 0) != edge);
        assert(side(faces[f], 1) != edge);
        assert(side(faces[f], 2) != edge);
    }
}

/// An edge on the boundary belongs to one face, any other to two.
pub open spec fn expected_count(boundary: Seq<Edge>, edge: Edge) -> nat {
    if boundary.contains(edge) {
        1
    } else {
        2
    }
}

pub open spec fn edge_fits(faces: Seq<Face>, boundary: Seq<Edge>, edge: Edge) -> bool {
    side_count(faces, edge, faces.len() as int) == expected_count(boundary, edge)
}

pub open spec fn vertex_used(faces: Seq<Face>, vertex: usize) -> bool {
    exists|f: int|
        0 <= f < faces.len() && ((#[trigger] faces[f])[0] == vertex || faces[f][1] == vertex || faces[f][2]
            == vertex)
}

/// The faces cover the constraints and nothing overlaps or is left open.
pub open spec fn conforming(faces: Seq<Face>, constraints: Seq<Edge>, boundary: Seq<Edge>, nodes: Seq<usize>) -> bool {
    &&& forall|e: int| 0 <= e < constraints.len() ==> edge_fits(faces, boundary, #[trigger] constraints[e])
    &&& forall|k: int| 0 <= k < sides(faces).len() ==> edge_fits(faces, boundary, #[trigger] sides(faces)[k])
    &&& forall|n: int| 0 <= n < nodes.len() ==> vertex_used(faces, #[trigger] nodes[n])
}

#[verifier::loop_isolation(false)]
fn used_vertices(faces: &Vec<Face>) -> (r: Vec<usize>)
    ensures
        ascending_indices(r@),
        forall|vertex: usize| #[trigger] r@.contains(vertex) <==> vertex_used(faces@, vertex),
{
    let mut all: Vec<usize> = Vec::new();
    let mut f: usize = 0;
    while f < faces.len()
        invariant
            f <= faces.len(),
            all@.len() == 3 * f,
            forall|m: int| 0 <= m < all@.len() ==> vertex_used(faces@, #[trigger] all@[m]),
            forall|g: int| 0 <= g < f ==> (#[trigger] faces@[g])[0] == all@[3 * g] && faces@[g][1] == all@[3 * g + 1] && faces@[g][2] == all@[3 * g + 2],
        decreases faces.len() - f,
    {
        let face: Face = faces[f];
        let ghost before = all@;
        all.push(face[0]);
        all.push(face[1]);
        all.push(face[2]);
        proof {
            assert(faces@[f as int] == face);
            assert(vertex_used(faces@, face[0]) && vertex_used(faces@, face[1]) && vertex_used(faces@, face[2]));
            assert forall|m: int| 0 <= m < all@.len() implies vertex_used(faces@, #[trigger] all@[m]) by {
                if m < before.len() {
                    assert(all@[m] == before[m]);
                }
            }
        }
        f += 1;
    }
    let ghost listed = all@;
    let r = unique_indices(all);
    assert forall|vertex: usize| #[trigger] r@.contains(vertex) <==> vertex_used(faces@, vertex) by {
        assert(r@.contains(vertex) <==> listed.contains(vertex));
        if listed.contains(vertex) {
            let m = choose|m: int| 0 <= m < listed.len() && listed[m] == vertex;
            assert(vertex_used(faces@, listed[m]));
        }
        if vertex_used(faces@, vertex) {
            let g = choose|g: int| 0 <= g < faces@.len() && ((#[trigger] faces@[g])[0] == vertex || faces@[g][1] == vertex || faces@[g][2] == vertex);
            if faces@[g][0] == vertex {
                assert(listed[3 * g] == vertex);
            } else if faces@[g][1] == vertex {
                assert(listed[3 * g + 1] == vertex);
            } else {
                assert(listed[3 * g + 2] == vertex);
            }
        }
    }
    r
}

/// Whether faces conform to the constraints of their surface.
#[verifier::loop_isolation(false)]
pub fn is_conforming(faces: &Vec<Face>, constraints: &Vec<Edge>, boundary: &Vec<Edge>, nodes: &Vec<usize>) -> (r:
    bool)
    requires
        3 * faces@.len() <= usize::MAX,
        edges_ascend(boundary@),
    ensures
        r == conforming(faces@, constraints@, boundary@, nodes@),
{
    let table = count_sides(faces);
    let mut e: usize = 0;
    while e < constraints.len()
        invariant
            e <= constraints.len(),
            forall|d: int| 0 <= d < e ==> edge_fits(faces@, boundary@, #[trigger] constraints@[d]),
        decreases constraints.len() - e,
    {
        let edge: Edge = constraints[e];
        let wanted: usize = if lists_edge(boundary, &edge) {
            1
        } else {
            2
        };
        let count: usize = match find_edge(&table.edges, &edge) {
            Some(k) => table.counts[k],
            None => {
                proof {
                    assert(!sides(faces@).contains(edge));
                    uncounted(faces@, edge, faces@.len() as int);
                }
                0
            },
        };
        if count != wanted {
            assert(!edge_fits(faces@, boundary@, constraints@[e as int]));
            return false;
        }
        e += 1;
    }
    let mut k: usize = 0;
    while k < table.edges.len()
        invariant
            k <= table.edges.len(),
            forall|m: int| 0 <= m < k ==> edge_fits(faces@, boundary@, #[trigger] table.edges@[m]),
        decreases table.edges.len() - k,
    {
        let edge: Edge = table.edges[k];
        let wanted: usize = if lists_edge(boundary, &edge) {
            1
        } else {
            2
        };
        if table.counts[k] != wanted {
            proof {
                assert(table.edges@.contains(table.edges@[k as int]));
                assert(sides(faces@).contains(edge));
                let m = choose|m: int| 0 <= m < sides(faces@).len() && sides(faces@)[m] == edge;
                assert(!edge_fits(faces@, boundary@, sides(faces@)[m]));
            }
            return false;
        }
        k += 1;
    }
    assert forall|m: int| 0 <= m < sides(faces@).len() implies edge_fits(faces@, boundary@, #[trigger] sides(faces@)[m]) by {
        let edge = sides(faces@)[m];
        assert(sides(faces@).contains(edge));
        assert(table.edges@.contains(edge));
        let n = choose|n: int| 0 <= n < table.edges@.len() && table.edges@[n] == edge;
        assert(edge_fits(faces@, boundary@, table.edges@[n]));
    }
    let used = used_vertices(faces);
    let mut n: usize = 0;
    while n < nodes.len()
        invariant
            n <= nodes.len(),
            forall|m: int| 0 <= m < n ==> vertex_used(faces@, #[trigger] nodes@[m]),
        decreases nodes.len() - n,
    {
        match find_index(&used, nodes[n]) {
            Some(_) => {
                assert(used@.contains(nodes@[n as int]));
            },
            None => {
                assert(!used@.contains(nodes@[n as int]));
                assert(!vertex_used(faces@, nodes@[n as int]));
                return false;
            },
        }
        n += 1;
    }
    true
}

/// The boundary of a region: the edges of one face only.
pub open spec fn outer_edges(edges: Seq<Edge>, counts: Seq<usize>, upto: int) -> Seq<Edge>
    decreases upto,
{
    if upto <= 0 {
        Seq::empty()
    } else if counts[upto - 1] == 1 {
        outer_edges(edges, counts, upto - 1).push(edges[upto - 1])
    } else {
        outer_edges(edges, counts, upto - 1)
    }
}

pub fn region_boundary(table: &FaceEdges) -> (r: Vec<Edge>)
    requires
        table.counts@.len() == table.edges@.len(),
    ensures
        r@ == outer_edges(table.edges@, table.counts@, table.edges@.len() as int),
{
    let mut r: Vec<Edge> = Vec::new();
    let mut k: usize = 0;
    while k < table.edges.len()
        invariant
            table.counts@.len() == table.edges@.len(),
            k <= table.edges.len(),
            r@ == outer_edges(table.edges@, table.counts@, k as int),
        decreases table.edges.len() - k,
    {
        if table.counts[k] == 1 {
            r.push(table.edges[k]);
        }
        k += 1;
    }
    r
}

/// The edges that are to be kept when a region is meshed anew.
pub open spec fn kept_edges(
    edges: Seq<Edge>,
    outer: Seq<Edge>,
    constraints: Seq<Edge>,
    upto: int,
) -> Seq<Edge>
    decreases upto,
{
    if upto <= 0 {
        Seq::empty()
    } else if outer.contains(edges[upto - 1]) || constraints.contains(edges[upto - 1]) {
        kept_edges(edges, outer, constraints, upto - 1).push(edges[upto - 1])
    } else {
        kept_edges(edges, outer, constraints, upto - 1)
    }
}

fn is_listed(edges: &Vec<Edge>, wanted: &Edge) -> (r: bool)
    ensures
        r == edges@.contains(*wanted),
{
    let mut k: usize = 0;
    while k < edges.len()
        invariant
            k <= edges.len(),
            forall|m: int| 0 <= m < k ==> edges@[m] != *wanted,
        decreases edges.len() - k,
    {
        if same_edge(&edges[k], wanted) {
            assert(edges@[k as int] == *wanted);
            return true;
        }
        k += 1;
    }
    false
}

pub fn region_constraints(table: &FaceEdges, outer: &Vec<Edge>, constraints: &Vec<Edge>) -> (r: Vec<Edge>)
    requires
        edges_ascend(constraints@),
    ensures
        r@ == kept_edges(table.edges@, outer@, constraints@, table.edges@.len() as int),
{
    let mut r: Vec<Edge> = Vec::new();
    let mut k: usize = 0;
    while k < table.edges.len()
        invariant
            edges_ascend(constraints@),
            k <= table.edges.len(),
            r@ == kept_edges(table.edges@, outer@, constraints@, k as int),
        decreases table.edges.len() - k,
    {
        if is_listed(outer, &table.edges[k]) || lists_edge(constraints, &table.edges[k]) {
            r.push(table.edges[k]);
        }
        k += 1;
    }
    r
}

#[derive(Debug, Clone, Copy, PartialEq, Eq, Structural)]
pub enum QualityReason {
    DegenerateOrInverted,
    ShortEdge,
    MinimumAngle,
    MaximumArea,
}

/// What is measured of a triangle.
#[derive(Debug, Clone, Copy)]
pub struct FaceMeasure {
    pub area: Scalar,
    /// Projection of its normal on that of the surface.
    pub facing: Scalar,
    pub shortest: Scalar,
    /// Longest over shortest edge.
    pub ratio: Scalar,
    pub angles: [Scalar; 3],
    /// Least angle with room for rounding.
    pub padded_angle: Scalar,
}

/// What triangles are held against.
#[derive(Debug, Clone, Copy)]
pub struct FaceLimits {
    pub precision: Scalar,
    /// Area below which a triangle is degenerate.
    pub degenerate_area: Scalar,
    pub minimum_angle: Scalar,
    /// Greatest area with room for rounding.
    pub maximum_area: Scalar,
}

pub open spec fn degenerate(measure: FaceMeasure, limits: FaceLimits) -> bool {
    !measure.area.finite() || measure.area.le(limits.degenerate_area) || measure.facing.le(
        Scalar::spec_zero(),
    )
}

pub open spec fn long_enough(measure: FaceMeasure, limits: FaceLimits) -> bool {
    measure.shortest.finite() && limits.precision.lt(measure.shortest)
}

pub open spec fn with_reason(list: Seq<QualityReason>, holds: bool, reason: QualityReason) -> Seq<QualityReason> {
    if holds {
        list.push(reason)
    } else {
        list
    }
}

/// What is wrong with a triangle.
pub open spec fn reasons_against(measure: FaceMeasure, limits: FaceLimits) -> Seq<QualityReason> {
    let first = with_reason(
        Seq::empty(),
        degenerate(measure, limits),
        QualityReason::DegenerateOrInverted,
    );
    let second = with_reason(first, !long_enough(measure, limits), QualityReason::ShortEdge);
    let third = with_reason(
        second,
        measure.padded_angle.lt(limits.minimum_angle),
        QualityReason::MinimumAngle,
    );
    with_reason(third, limits.maximum_area.lt(measure.area), QualityReason::MaximumArea)
}

pub fn face_reasons(measure: &FaceMeasure, limits: &FaceLimits) -> (r: Vec<QualityReason>)
    ensures
        r@ == reasons_against(*measure, *limits),
{
    let mut r: Vec<QualityReason> = Vec::new();
    if !measure.area.is_finite() || measure.area.at_most(&limits.degenerate_area) || measure.facing.at_most(
        &Scalar::zero(),
    ) {
        r.push(QualityReason::DegenerateOrInverted);
    }
    if !(measure.shortest.is_finite() && limits.precision.less(&measure.shortest)) {
        r.push(QualityReason::ShortEdge);
    }
    if measure.padded_angle.less(&limits.minimum_angle) {
        r.push(QualityReason::MinimumAngle);
    }
    if limits.maximum_area.less(&measure.area) {
        r.push(QualityReason::MaximumArea);
    }
    assert(r@ =~= reasons_against(*measure, *limits));
    r
}

/// The sides of a face that are constraints, in their order.
pub open spec fn constrained_sides(face: Face, constraints: Seq<Edge>, upto: int) -> Seq<Edge>
    decreases upto,
{
    if upto <= 0 {
        Seq::empty()
    } else if constraints.contains(side(face, upto - 1)) {
        constrained_sides(face, constraints, upto - 1).push(side(face, upto - 1))
    } else {
        constrained_sides(face, constraints, upto - 1)
    }
}

pub fn find_constrained_sides(face: &Face, constraints: &Vec<Edge>) -> (r: Vec<Edge>)
    requires
        edges_ascend(constraints@),
    ensures
        r@ == constrained_sides(*face, constraints@, 3),
{
    let mut r: Vec<Edge> = Vec::new();
    let mut i: usize = 0;
    while i < 3
        invariant
            edges_ascend(constraints@),
            i <= 3,
            r@ == constrained_sides(*face, constraints@, i as int),
        decreases 3 - i,
    {
        let edge: Edge = face_side(face, i);
        if lists_edge(constraints, &edge) {
            r.push(edge);
        }
        i += 1;
    }
    r
}

/// A face after a vertex was replaced by its canonical one.
pub open spec fn renamed(face: Face, names: Map<u64, usize>) -> Seq<usize> {
    Seq::new(
        3,
        |i: int|
            if names.dom().contains(face[i] as u64) {
                names[face[i] as u64]
            } else {
                face[i]
            },
    )
}

fn renamed_vertex(vertex: usize, names: &crate::registry::Registry) -> (r: usize)
    ensures
        r == if names@.dom().contains(vertex as u64) {
            names@[vertex as u64]
        } else {
            vertex
        },
{
    match names.get(vertex as u64) {
        Some(other) => other,
        None => vertex,
    }
}

/// Puts canonical vertices in place of those that coincide with them.
pub fn rename_faces(faces: &Vec<Face>, names: &crate::registry::Registry) -> (r: Vec<Face>)
    ensures
        r@.len() == faces@.len(),
        forall|f: int| 0 <= f < faces@.len() ==> (#[trigger] r@[f])@ == renamed(faces@[f], names@),
{
    let mut r: Vec<Face> = Vec::new();
    let mut f: usize = 0;
    while f < faces.len()
        invariant
            f <= faces.len(),
            r.len() == f,
            forall|g: int| 0 <= g < f ==> (#[trigger] r@[g])@ == renamed(faces@[g], names@),
        decreases faces.len() - f,
    {
        let face: Face = faces[f];
        let other: Face = [
            renamed_vertex(face[0], names),
            renamed_vertex(face[1], names),
            renamed_vertex(face[2], names),
        ];
        assert(other@ =~= renamed(faces@[f as int], names@));
        r.push(other);
        f += 1;
    }
    r
}

/// In conforming faces every line inside the boundary has a face on either side.
pub proof fn inner_lines_have_two_faces(
    faces: Seq<Face>,
    constraints: Seq<Edge>,
    boundary: Seq<Edge>,
    nodes: Seq<usize>,
    e: int,
)
    requires
        conforming(faces, constraints, boundary, nodes),
        0 <= e < constraints.len(),
        !boundary.contains(constraints[e]),
    ensures
        side_count(faces, constraints[e], faces.len() as int) == 2,
{
    assert(edge_fits(faces, boundary, constraints[e]));
}

/// The sides of a face join its three vertices two by two.
pub proof fn sides_join_the_vertices(face: Face, a: usize, b: usize)
    ensures
        side(face, 0) == key_of(a, b) <==> (face[0] == a && face[1] == b) || (face[0] == b && face[1] == a),
        side(face, 1) == key_of(a, b) <==> (face[1] == a && face[2] == b) || (face[1] == b && face[2] == a),
        side(face, 2) == key_of(a, b) <==> (face[2] == a && face[0] == b) || (face[2] == b && face[0] == a),
{
    crate::edges::keys_tell_edges_apart(face[0], face[1], a, b);
    crate::edges::keys_tell_edges_apart(face[1], face[2], a, b);
    crate::edges::keys_tell_edges_apart(face[2], face[0], a, b);
}

/// An edge is counted as often as it is a side.
pub proof fn sides_are_counted(faces: Seq<Face>, edge: Edge, upto: int)
    requires
        0 <= upto <= faces.len(),
    ensures
        side_count(faces, edge, upto) == sides(faces).take(3 * upto).filter(|other: Edge| other == edge).len(),
    decreases upto,
{
    reveal(Seq::filter);
    let all = sides(faces);
    let same = |other: Edge| other == edge;
    if upto > 0 {
        sides_are_counted(faces, edge, upto - 1);
        let n = 3 * (upto - 1);
        let face = faces[upto - 1];
        let base = all.take(n).filter(same).len();
        assert(side_count(faces, edge, upto - 1) == base);
        assert(all.take(n + 1).drop_last() =~= all.take(n));
        assert(all.take(n + 2).drop_last() =~= all.take(n + 1));
        assert(all.take(n + 3).drop_last() =~= all.take(n + 2));
        assert(all[n] == side(face, 0));
        assert(all[n + 1] == side(face, 1));
        assert(all[n + 2] == side(face, 2));
        assert(all.take(n + 1).filter(same).len() == base + if side(face, 0) == edge { 1int } else { 0 });
        assert(all.take(n + 2).filter(same).len() == all.take(n + 1).filter(same).len() + if side(face, 1) == edge { 1int } else { 0 });
        assert(all.take(n + 3).filter(same).len() == all.take(n + 2).filter(same).len() + if side(face, 2) == edge { 1int } else { 0 });
        assert(3 * upto == n + 3);
    }
}

/// In conforming faces a boundary edge has one face, any other side two, and every node lies on
/// a face.
pub proof fn conforming_faces_leave_no_gap(faces: Seq<Face>, constraints: Seq<Edge>, boundary: Seq<Edge>, nodes: Seq<usize>, f: int, i: int, n: int)
    requires
        conforming(faces, constraints, boundary, nodes),
        0 <= f < faces.len(),
        0 <= i < 3,
        0 <= n < nodes.len(),
    ensures
        boundary.contains(side(faces[f], i)) ==> side_count(faces, side(faces[f], i), faces.len() as int) == 1,
        !boundary.contains(side(faces[f], i)) ==> side_count(faces, side(faces[f], i), faces.len() as int) == 2,
        exists|g: int|
            0 <= g < faces.len() && ((#[trigger] faces[g])[0] == nodes[n] || faces[g][1] == nodes[n] || faces[g][2] == nodes[n]),
{
    let k = 3 * f + i;
    assert(sides(faces)[k] == side(faces[f], i)) by {
        assert(k / 3 == f && k % 3 == i);
    }
    assert(edge_fits(faces, boundary, sides(faces)[k]));
    assert(vertex_used(faces, nodes[n]));
}

/// An edge bounds a region exactly when it has one face.
pub proof fn regions_are_bounded_by_single_edges(edges: Seq<Edge>, counts: Seq<usize>, upto: int, edge: Edge)
    requires
        0 <= upto <= edges.len(),
        counts.len() == edges.len(),
    ensures
        outer_edges(edges, counts, upto).contains(edge) <==> exists|k: int| 0 <= k < upto && #[trigger] edges[k] == edge && counts[k] == 1,
    decreases upto,
{
    if upto > 0 {
        regions_are_bounded_by_single_edges(edges, counts, upto - 1, edge);
        crate::ordering::pushed_contains(outer_edges(edges, counts, upto - 1), edges[upto - 1], edge);
    }
}

/// An edge is kept exactly when it bounds the region or is a constraint.
pub proof fn bounds_and_constraints_are_kept(edges: Seq<Edge>, outer: Seq<Edge>, constraints: Seq<Edge>, upto: int, edge: Edge)
    requires
        0 <= upto <= edges.len(),
    ensures
        kept_edges(edges, outer, constraints, upto).contains(edge) <==> edges.take(upto).contains(edge) && (outer.contains(edge)
            || constraints.contains(edge)),
    decreases upto,
{
    if upto > 0 {
        bounds_and_constraints_are_kept(edges, outer, constraints, upto - 1, edge);
        assert(edges.take(upto) =~= edges.take(upto - 1).push(edges[upto - 1]));
        crate::ordering::pushed_contains(edges.take(upto - 1), edges[upto - 1], edge);
        crate::ordering::pushed_contains(kept_edges(edges, outer, constraints, upto - 1), edges[upto - 1], edge);
    }
}

/// What is wrong with a triangle is said, and only that: no proper area or the wrong face up, a
/// short edge, an angle that is too small, an area that is too large.
pub proof fn faults_of_triangles_are_named(measure: FaceMeasure, limits: FaceLimits)
    ensures
        reasons_against(measure, limits).contains(QualityReason::DegenerateOrInverted) <==> !measure.area.finite()
            || measure.area.le(limits.degenerate_area) || measure.facing.le(Scalar::spec_zero()),
        reasons_against(measure, limits).contains(QualityReason::ShortEdge) <==> !(measure.shortest.finite()
            && limits.precision.lt(measure.shortest)),
        reasons_against(measure, limits).contains(QualityReason::MinimumAngle) <==> measure.padded_angle.lt(limits.minimum_angle),
        reasons_against(measure, limits).contains(QualityReason::MaximumArea) <==> limits.maximum_area.lt(measure.area),
{
    let first = with_reason(Seq::empty(), degenerate(measure, limits), QualityReason::DegenerateOrInverted);
    let second = with_reason(first, !long_enough(measure, limits), QualityReason::ShortEdge);
    let third = with_reason(second, measure.padded_angle.lt(limits.minimum_angle), QualityReason::MinimumAngle);
    assert forall|reason: QualityReason| true implies #[trigger] reasons_against(measure, limits).contains(reason) == ({
        ||| third.contains(reason)
        ||| limits.maximum_area.lt(measure.area) && reason == QualityReason::MaximumArea
    }) by {
        crate::ordering::pushed_contains(third, QualityReason::MaximumArea, reason);
    }
    assert forall|reason: QualityReason| true implies #[trigger] third.contains(reason) == ({
        ||| second.contains(reason)
        ||| measure.padded_angle.lt(limits.minimum_angle) && reason == QualityReason::MinimumAngle
    }) by {
        crate::ordering::pushed_contains(second, QualityReason::MinimumAngle, reason);
    }
    assert forall|reason: QualityReason| true implies #[trigger] second.contains(reason) == ({
        ||| first.contains(reason)
        ||| !long_enough(measure, limits) && reason == QualityReason::ShortEdge
    }) by {
        crate::ordering::pushed_contains(first, QualityReason::ShortEdge, reason);
    }
    assert forall|reason: QualityReason| true implies #[trigger] first.contains(reason) == (degenerate(measure, limits) && reason
        == QualityReason::DegenerateOrInverted) by {
        crate::ordering::pushed_contains(Seq::<QualityReason>::empty(), QualityReason::DegenerateOrInverted, reason);
    }
}

/// A side is named as constrained exactly when it is a constraint.
pub proof fn constrained_sides_are_named(face: Face, constraints: Seq<Edge>, upto: int, edge: Edge)
    requires
        0 <= upto <= 3,
    ensures
        constrained_sides(face, constraints, upto).contains(edge) <==> constraints.contains(edge) && exists|i: int|
            0 <= i < upto && #[trigger] side(face, i) == edge,
    decreases upto,
{
    if upto > 0 {
        constrained_sides_are_named(face, constraints, upto - 1, edge);
        crate::ordering::pushed_contains(constrained_sides(face, constraints, upto - 1), side(face, upto - 1), edge);
    }
}

/// A vertex with another name is renamed, and one without keeps its own.
pub proof fn faces_take_the_names(face: Face, names: Map<u64, usize>, i: int)
    requires
        0 <= i < 3,
    ensures
        renamed(face, names).len() == 3,
        names.dom().contains(face[i] as u64) ==> renamed(face, names)[i] == names[face[i] as u64],
        !names.dom().contains(face[i] as u64) ==> renamed(face, names)[i] == face[i],
{
}

} // verus!
