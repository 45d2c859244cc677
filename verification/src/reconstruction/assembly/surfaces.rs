//! Surfaces of the preview model, region by region.
use vstd::prelude::*;
use vstd::multiset::Multiset;
use crate::input::Point;
use crate::ordering::{ascending, copy_ids, find_id, lists_distinct, sorted_indices, stable_order};
use crate::reconstruction::assembly::{Issue, Region};
use crate::reconstruction::{intern_rings, measures_fit, rings_error, surface_of, Error, Model, PlaneFrame, RingMeasure, Surface};
use crate::scalar::Scalar;

verus! {

pub open spec fn area_keys(keys: Seq<i128>, areas: Seq<Scalar>) -> bool {
    &&& keys.len() == areas.len()
    &&& forall|i: int| 0 <= i < areas.len() ==> #[trigger] keys[i] == -areas[i].total_rank()
}

/// Rings by descending area, equal ones in their given order.
pub open spec fn by_area(order: Seq<usize>, areas: Seq<Scalar>) -> bool {
    exists|keys: Seq<i128>| #[trigger] area_keys(keys, areas) && stable_order(keys, order)
}

pub open spec fn reordered(result: Seq<Vec<u32>>, rings: Seq<Vec<u32>>, order: Seq<usize>) -> bool {
    &&& result.len() == order.len()
    &&& forall|k: int| 0 <= k < order.len() ==> (#[trigger] result[k])@ == rings[order[k] as int]@
}

/// Fixes exterior and hole roles from the source geometry: the largest ring
/// comes first.
#[verifier::loop_isolation(false)]
pub fn exterior_first(rings: &Vec<Vec<u32>>, areas: &Vec<Scalar>) -> (result: Vec<Vec<u32>>)
    requires
        areas@.len() == rings@.len(),
    ensures
        exists|order: Seq<usize>| #[trigger]
            by_area(order, areas@) && reordered(result@, rings@, order),
{
    let mut keys: Vec<i128> = Vec::new();
    let mut i: usize = 0;
    while i < areas.len()
        invariant
            i <= areas.len(),
            keys.len() == i,
            forall|k: int| 0 <= k < i ==> #[trigger] keys@[k] == -areas@[k].total_rank(),
        decreases areas.len() - i,
    {
        keys.push(-(areas[i].total_key() as i128));
        i += 1;
    }
    let order = sorted_indices(&keys);
    assert(area_keys(keys@, areas@));
    let mut result: Vec<Vec<u32>> = Vec::new();
    let mut k: usize = 0;
    while k < order.len()
        invariant
            k <= order.len(),
            result.len() == k,
            forall|m: int| 0 <= m < k ==> (#[trigger] result@[m])@ == rings@[order@[m] as int]@,
        decreases order.len() - k,
    {
        result.push(copy_ids(&rings[order[k]]));
        k += 1;
    }
    assert(by_area(order@, areas@) && reordered(result@, rings@, order@));
    result
}

/// The model under construction and what could not be built of it.
#[derive(Debug)]
pub struct SurfaceBuild {
    pub model: Model,
    /// Source node of each vertex, ascending.
    pub vertex_source_nodes: Vec<u32>,
    pub surface_source_patches: Vec<usize>,
    pub surface_stiffness: Vec<u32>,
    pub issues: Vec<Issue>,
}

pub open spec fn loops_known(loops: Seq<Vec<u32>>, nodes: Seq<u32>) -> bool {
    forall|r: int, k: int|
        0 <= r < loops.len() && 0 <= k < loops[r]@.len() ==> nodes.contains(#[trigger] loops[r]@[k])
}

/// `rings` names the vertices of the loop nodes.
pub open spec fn loops_mapped(rings: Seq<Vec<usize>>, loops: Seq<Vec<u32>>, nodes: Seq<u32>) -> bool {
    &&& rings.len() == loops.len()
    &&& forall|r: int|
        0 <= r < loops.len() ==> (#[trigger] rings[r])@.len() == loops[r]@.len() && forall|k: int|
            0 <= k < loops[r]@.len() ==> #[trigger] rings[r]@[k] < nodes.len()
                && nodes[rings[r]@[k] as int] == loops[r]@[k]
}

pub open spec fn measures_for(measures: Seq<RingMeasure>, loops: Seq<Vec<u32>>) -> bool {
    &&& measures.len() == loops.len()
    &&& forall|r: int|
        0 <= r < loops.len() ==> (#[trigger] measures[r]).offsets@.len() == loops[r]@.len()
            && measures[r].contour@.len() == loops[r]@.len() && measures[r].lengths@.len()
            == loops[r]@.len() && measures[r].clear_of@.len() >= r
}

pub open spec fn contour_reason(error: Error) -> Seq<char> {
    match error {
        Error::InvalidPrecision => "contour_InvalidPrecision"@,
        Error::InvalidPlane => "contour_InvalidPlane"@,
        Error::InvalidVertex => "contour_InvalidVertex"@,
        Error::InvalidRing => "contour_InvalidRing"@,
        Error::NonPlanar => "contour_NonPlanar"@,
        Error::ShortEdge => "contour_ShortEdge"@,
    }
}

fn contour_reason_text(error: Error) -> (r: String)
    ensures
        r@ == contour_reason(error),
{
    match error {
        Error::InvalidPrecision => "contour_InvalidPrecision".to_string(),
        Error::InvalidPlane => "contour_InvalidPlane".to_string(),
        Error::InvalidVertex => "contour_InvalidVertex".to_string(),
        Error::InvalidRing => "contour_InvalidRing".to_string(),
        Error::NonPlanar => "contour_NonPlanar".to_string(),
        Error::ShortEdge => "contour_ShortEdge".to_string(),
    }
}

pub open spec fn issue_of(issue: Issue, region: Region, reason: Seq<char>, loops: Seq<Vec<u32>>) -> bool {
    &&& issue.patch == region.patch
    &&& issue.source_elements@ == region.elements@
    &&& issue.reason@ == reason
    &&& issue.boundary_source_nodes@ == loops
}

/// Everything but the issues stays as it was, and one issue is added.
pub open spec fn refused(
    before: SurfaceBuild,
    after: SurfaceBuild,
    region: Region,
    reason: Seq<char>,
    loops: Seq<Vec<u32>>,
) -> bool {
    &&& after.issues@.len() == before.issues@.len() + 1
    &&& after.issues@.drop_last() == before.issues@
    &&& issue_of(after.issues@.last(), region, reason, loops)
    &&& after.surface_source_patches@ == before.surface_source_patches@
    &&& after.surface_stiffness@ == before.surface_stiffness@
    &&& after.model.spec_surfaces() == before.model.spec_surfaces()
    &&& after.model.spec_edges() == before.model.spec_edges()
}

pub open spec fn built(
    before: SurfaceBuild,
    after: SurfaceBuild,
    region: Region,
    rings: Seq<Vec<usize>>,
    measures: Seq<RingMeasure>,
) -> bool {
    &&& after.issues@ == before.issues@
    &&& after.surface_source_patches@ == before.surface_source_patches@.push(region.patch)
    &&& after.surface_stiffness@ == before.surface_stiffness@.push(region.stiffness)
    &&& after.model.spec_edges() == intern_rings(
        before.model.spec_edges(),
        rings,
        rings.len() as int,
    )
    &&& after.model.spec_surfaces().len() == before.model.spec_surfaces().len() + 1
    &&& after.model.spec_surfaces().drop_last() == before.model.spec_surfaces()
    &&& surface_of(
        after.model.spec_surfaces().last(),
        before.model.spec_planes().len() as usize,
        rings,
        region.elements@,
        measures,
        after.model.spec_edges(),
    )
}

/// What adding a region comes to.
pub open spec fn region_added(
    before: SurfaceBuild,
    after: SurfaceBuild,
    region: Region,
    loops: Seq<Vec<u32>>,
    rings: Seq<Vec<usize>>,
    measures: Seq<RingMeasure>,
    plane: PlaneFrame,
    degenerate_hole: bool,
) -> bool {
    &&& loops_mapped(rings, loops, before.vertex_source_nodes@)
    &&& after.model.spec_planes() == before.model.spec_planes().push(plane)
    &&& match rings_error(before.model.limits(), rings, measures) {
        Some(error) => refused(
            before,
            after,
            region,
            if degenerate_hole {
                "degenerate_hole_after_closure"@
            } else {
                contour_reason(error)
            },
            loops,
        ),
        None => built(before, after, region, rings, measures),
    }
}

/// Why closed points cannot be taken over.
pub open spec fn all_finite(points: Seq<Point>) -> bool {
    forall|k: int|
        0 <= k < points.len() ==> (#[trigger] points[k])[0].finite() && points[k][1].finite()
            && points[k][2].finite()
}

impl SurfaceBuild {
    /// Starts from an empty model with a vertex for each closed node.
    #[verifier::loop_isolation(false)]
    pub fn start(model: Model, nodes: Vec<u32>, points: &Vec<Point>) -> (r: Result<SurfaceBuild, &'static str>)
        requires
            model.well_formed(),
            model.spec_vertices().len() == 0,
            ascending(nodes@),
            points@.len() == nodes@.len(),
        ensures
            match r {
                Ok(build) => {
                    &&& build.well_formed()
                    &&& all_finite(points@)
                    &&& build.vertex_source_nodes@ == nodes@
                    &&& build.model.spec_vertices() == points@
                    &&& build.model.spec_planes() == model.spec_planes()
                    &&& build.model.spec_edges() == model.spec_edges()
                    &&& build.model.spec_surfaces() == model.spec_surfaces()
                    &&& build.model.spec_precision() == model.spec_precision()
                    &&& build.model.spec_minimum_edge() == model.spec_minimum_edge()
                    &&& build.issues@.len() == 0
                    &&& build.surface_source_patches@.len() == 0
                    &&& build.surface_stiffness@.len() == 0
                },
                Err(error) => error@ == "invalid closed vertex"@ && !all_finite(points@),
            },
    {
        let mut filled = model;
        let mut k: usize = 0;
        while k < points.len()
            invariant
                k <= points.len(),
                filled.well_formed(),
                filled.spec_vertices() == points@.take(k as int),
                filled.spec_planes() == model.spec_planes(),
                filled.spec_edges() == model.spec_edges(),
                filled.spec_surfaces() == model.spec_surfaces(),
                filled.spec_precision() == model.spec_precision(),
                filled.spec_minimum_edge() == model.spec_minimum_edge(),
                forall|i: int|
                    0 <= i < k ==> (#[trigger] points@[i])[0].finite() && points@[i][1].finite()
                        && points@[i][2].finite(),
            decreases points.len() - k,
        {
            match filled.add_vertex(points[k]) {
                Ok(_) => {
                    assert(points@.take(k + 1) =~= points@.take(k as int).push(points@[k as int]));
                },
                Err(_) => {
                    assert(!all_finite(points@)) by {
                        let p = points@[k as int];
                        assert(!(p[0].finite() && p[1].finite() && p[2].finite()));
                    }
                    return Err("invalid closed vertex");
                },
            }
            k += 1;
        }
        assert(points@.take(k as int) =~= points@);
        Ok(
            SurfaceBuild {
                model: filled,
                vertex_source_nodes: nodes,
                surface_source_patches: Vec::new(),
                surface_stiffness: Vec::new(),
                issues: Vec::new(),
            },
        )
    }

    /// Reports a region that has no valid boundary. Its elements stay unmodelled.
    pub fn leave_out(&mut self, region: &Region, reason: &str)
        requires
            old(self).well_formed(),
        ensures
            final(self).well_formed(),
            final(self).vertex_source_nodes == old(self).vertex_source_nodes,
            final(self).model == old(self).model,
            refused(*old(self), *final(self), *region, reason@, Seq::empty()),
    {
        self.issues.push(
            Issue {
                patch: region.patch,
                source_elements: copy_ids(&region.elements),
                reason: reason.to_string(),
                boundary_source_nodes: Vec::new(),
            },
        );
        proof {
            assert(self.issues@.drop_last() =~= old(self).issues@);
            assert(self.issues@.last().boundary_source_nodes@ =~= Seq::<Vec<u32>>::empty());
        }
    }

    pub open spec fn well_formed(&self) -> bool {
        &&& self.model.well_formed()
        &&& ascending(self.vertex_source_nodes@)
        &&& self.vertex_source_nodes@.len() == self.model.spec_vertices().len()
    }

    #[verifier::loop_isolation(false)]
    fn mapped(&self, loops: &Vec<Vec<u32>>) -> (r: Option<Vec<Vec<usize>>>)
        requires
            ascending(self.vertex_source_nodes@),
        ensures
            match r {
                Some(rings) => loops_known(loops@, self.vertex_source_nodes@) && loops_mapped(
                    rings@,
                    loops@,
                    self.vertex_source_nodes@,
                ),
                None => !loops_known(loops@, self.vertex_source_nodes@),
            },
    {
        let ghost nodes = self.vertex_source_nodes@;
        let mut rings: Vec<Vec<usize>> = Vec::new();
        let mut r: usize = 0;
        while r < loops.len()
            invariant
                r <= loops.len(),
                rings.len() == r,
                forall|s: int, k: int|
                    0 <= s < r && 0 <= k < loops@[s]@.len() ==> nodes.contains(#[trigger] loops@[s]@[k]),
                forall|s: int|
                    0 <= s < r ==> (#[trigger] rings@[s])@.len() == loops@[s]@.len() && forall|k: int|
                        0 <= k < loops@[s]@.len() ==> #[trigger] rings@[s]@[k] < nodes.len()
                            && nodes[rings@[s]@[k] as int] == loops@[s]@[k],
            decreases loops.len() - r,
        {
            let mut ring: Vec<usize> = Vec::new();
            let mut k: usize = 0;
            while k < loops[r].len()
                invariant
                    k <= loops@[r as int]@.len(),
                    ring.len() == k,
                    forall|m: int|
                        0 <= m < k ==> #[trigger] ring@[m] < nodes.len() && nodes[ring@[m] as int] == loops@[r as int]@[m],
                    forall|m: int| 0 <= m < k ==> nodes.contains(#[trigger] loops@[r as int]@[m]),
                decreases loops@[r as int]@.len() - k,
            {
                match find_id(&self.vertex_source_nodes, loops[r][k]) {
                    Some(vertex) => {
                        assert(nodes[vertex as int] == loops@[r as int]@[k as int]);
                        ring.push(vertex);
                    },
                    None => {
                        assert(!nodes.contains(loops@[r as int]@[k as int]));
                        return None;
                    },
                }
                k += 1;
            }
            rings.push(ring);
            r += 1;
        }
        Some(rings)
    }

    /// Adds the surface of a region, or reports why it cannot be built. A region
    /// with a node that could not be closed is reported without touching the
    /// model.
    pub fn add_region(
        &mut self,
        region: &Region,
        loops: Vec<Vec<u32>>,
        plane: PlaneFrame,
        measures: Vec<RingMeasure>,
        degenerate_hole: bool,
    )
        requires
            old(self).well_formed(),
            measures_for(measures@, loops@),
        ensures
            final(self).well_formed(),
            final(self).vertex_source_nodes@ == old(self).vertex_source_nodes@,
            final(self).model.spec_vertices() == old(self).model.spec_vertices(),
            if loops_known(loops@, old(self).vertex_source_nodes@) {
                exists|rings: Seq<Vec<usize>>| #[trigger]
                    region_added(
                        *old(self),
                        *final(self),
                        *region,
                        loops@,
                        rings,
                        measures@,
                        plane,
                        degenerate_hole,
                    )
            } else {
                refused(
                    *old(self),
                    *final(self),
                    *region,
                    "support_intersection_or_movement_budget"@,
                    loops@,
                ) && final(self).model == old(self).model
            },
    {
        let rings = match self.mapped(&loops) {
            Some(rings) => rings,
            None => {
                self.issues.push(
                    Issue {
                        patch: region.patch,
                        source_elements: copy_ids(&region.elements),
                        reason: "support_intersection_or_movement_budget".to_string(),
                        boundary_source_nodes: loops,
                    },
                );
                assert(self.issues@.drop_last() =~= old(self).issues@);
                return;
            },
        };
        let ghost mapped = rings@;
        let ghost source = measures@;
        proof {
            assert(measures_fit(mapped, source)) by {
                assert forall|r: int| 0 <= r < mapped.len() implies (#[trigger] source[r]).offsets@.len() == mapped[r]@.len()
                    && source[r].contour@.len() == mapped[r]@.len() && source[r].lengths@.len() == mapped[r]@.len() && source[r].clear_of@.len() >= r by {
                    assert(mapped[r]@.len() == loops@[r]@.len());
                }
            }
        }
        let plane_id: usize = self.model.add_plane(plane);
        let elements = copy_ids(&region.elements);
        match self.model.add_surface(plane_id, rings, elements, measures) {
            Ok(_) => {
                self.surface_source_patches.push(region.patch);
                self.surface_stiffness.push(region.stiffness);
            },
            Err(error) => {
                let reason: String = if degenerate_hole {
                    "degenerate_hole_after_closure".to_string()
                } else {
                    contour_reason_text(error)
                };
                self.issues.push(
                    Issue {
                        patch: region.patch,
                        source_elements: copy_ids(&region.elements),
                        reason,
                        boundary_source_nodes: loops,
                    },
                );
                assert(self.issues@.drop_last() =~= old(self).issues@);
            },
        }
        assert(region_added(*old(self), *self, *region, loops@, mapped, source, plane, degenerate_hole));
    }
}

/// A region either becomes a surface or an issue, never both and never neither.
pub proof fn region_is_accounted_for(
    before: SurfaceBuild,
    after: SurfaceBuild,
    region: Region,
    loops: Seq<Vec<u32>>,
    rings: Seq<Vec<usize>>,
    measures: Seq<RingMeasure>,
    plane: PlaneFrame,
    degenerate_hole: bool,
)
    requires
        region_added(before, after, region, loops, rings, measures, plane, degenerate_hole),
    ensures
        after.model.spec_surfaces().len() + after.issues@.len() == before.model.spec_surfaces().len()
            + before.issues@.len() + 1,
{
}

/// The elements of surfaces, as often as they are named.
pub open spec fn surface_elements(surfaces: Seq<Surface>) -> Multiset<u32>
    decreases surfaces.len(),
{
    if surfaces.len() == 0 {
        Multiset::empty()
    } else {
        surface_elements(surfaces.drop_last()).add(surfaces.last().source_elements@.to_multiset())
    }
}

/// The elements of issues, as often as they are named.
pub open spec fn issue_elements(issues: Seq<Issue>) -> Multiset<u32>
    decreases issues.len(),
{
    if issues.len() == 0 {
        Multiset::empty()
    } else {
        issue_elements(issues.drop_last()).add(issues.last().source_elements@.to_multiset())
    }
}

pub open spec fn region_elements(regions: Seq<Region>) -> Multiset<u32>
    decreases regions.len(),
{
    if regions.len() == 0 {
        Multiset::empty()
    } else {
        region_elements(regions.drop_last()).add(regions.last().elements@.to_multiset())
    }
}

/// The elements that a build names, over its surfaces and its issues.
pub open spec fn named_elements(build: SurfaceBuild) -> Multiset<u32> {
    surface_elements(build.model.spec_surfaces()).add(issue_elements(build.issues@))
}

/// One region was dealt with: it was reported or built.
pub open spec fn dealt_with(before: SurfaceBuild, after: SurfaceBuild, region: Region) -> bool {
    ||| exists|reason: Seq<char>, loops: Seq<Vec<u32>>| #[trigger] refused(before, after, region, reason, loops)
    ||| exists|rings: Seq<Vec<usize>>, measures: Seq<RingMeasure>| #[trigger]
        built(before, after, region, rings, measures)
}

proof fn same_collection(a: Seq<u32>, b: Seq<u32>)
    requires
        lists_distinct(a, b),
        b.no_duplicates(),
    ensures
        a.to_multiset() == b.to_multiset(),
{
    assert forall|i: int, j: int| 0 <= i < a.len() && 0 <= j < a.len() && i != j implies a[i] != a[j] by {
        if i < j {
            assert(a[i] < a[j]);
        } else {
            assert(a[j] < a[i]);
        }
    }
    a.to_multiset_ensures();
    b.to_multiset_ensures();
    a.lemma_multiset_has_no_duplicates();
    b.lemma_multiset_has_no_duplicates();
    assert forall|x: u32| a.to_multiset().count(x) == b.to_multiset().count(x) by {
        assert(a.contains(x) <==> b.contains(x));
        assert(a.contains(x) <==> a.to_multiset().count(x) > 0);
        assert(b.contains(x) <==> b.to_multiset().count(x) > 0);
    }
    assert(a.to_multiset() =~= b.to_multiset());
}

/// Dealing with a region names its elements once more and no others.
pub proof fn region_is_named_once(before: SurfaceBuild, after: SurfaceBuild, region: Region)
    requires
        dealt_with(before, after, region),
        region.elements@.no_duplicates(),
    ensures
        named_elements(after) == named_elements(before).add(region.elements@.to_multiset()),
{
    let own = region.elements@.to_multiset();
    if exists|reason: Seq<char>, loops: Seq<Vec<u32>>| #[trigger] refused(before, after, region, reason, loops) {
        assert(issue_elements(after.issues@) == issue_elements(before.issues@).add(own));
    } else {
        let (rings, measures) = choose|rings: Seq<Vec<usize>>, measures: Seq<RingMeasure>| #[trigger]
            built(before, after, region, rings, measures);
        same_collection(after.model.spec_surfaces().last().source_elements@, region.elements@);
        assert(surface_elements(after.model.spec_surfaces()) == surface_elements(before.model.spec_surfaces()).add(own));
    }
    assert(named_elements(after) =~= named_elements(before).add(own));
}

/// Once all regions are dealt with, their elements stand over the surfaces and the
/// issues exactly as often as over the regions: none is lost and none is doubled.
pub proof fn elements_are_accounted_for(builds: Seq<SurfaceBuild>, regions: Seq<Region>)
    requires
        builds.len() == regions.len() + 1,
        builds[0].model.spec_surfaces().len() == 0,
        builds[0].issues@.len() == 0,
        forall|k: int|
            0 <= k < regions.len() ==> dealt_with(builds[k], builds[k + 1], #[trigger] regions[k])
                && regions[k].elements@.no_duplicates(),
    ensures
        named_elements(builds.last()) == region_elements(regions),
    decreases regions.len(),
{
    if regions.len() == 0 {
        assert(named_elements(builds[0]) =~= Multiset::<u32>::empty());
    } else {
        let last = regions.len() - 1;
        let earlier = builds.drop_last();
        assert forall|k: int| 0 <= k < regions.drop_last().len() implies dealt_with(earlier[k], earlier[k + 1], #[trigger] regions.drop_last()[k]) && regions.drop_last()[k].elements@.no_duplicates() by {
            assert(dealt_with(builds[k], builds[k + 1], regions[k]));
        }
        elements_are_accounted_for(earlier, regions.drop_last());
        assert(dealt_with(builds[last], builds[last + 1], regions[last]));
        region_is_named_once(builds[last], builds[last + 1], regions[last]);
    }
}

/// The first ring has the largest area, and every ring stays.
pub proof fn exteriors_are_the_largest(result: Seq<Vec<u32>>, rings: Seq<Vec<u32>>, areas: Seq<Scalar>, order: Seq<usize>, r: int)
    requires
        areas.len() == rings.len(),
        rings.len() <= usize::MAX,
        by_area(order, areas),
        reordered(result, rings, order),
        0 <= r < rings.len(),
    ensures
        result.len() == rings.len(),
        areas[r].total_rank() <= areas[order[0] as int].total_rank(),
        result[0]@ == rings[order[0] as int]@,
        exists|k: int| 0 <= k < result.len() && (#[trigger] result[k])@ == rings[r]@,
{
    let keys = choose|keys: Seq<i128>| #[trigger] area_keys(keys, areas) && stable_order(keys, order);
    assert(order.contains(r as usize));
    let k = choose|k: int| 0 <= k < order.len() && order[k] == r as usize;
    assert(result[k]@ == rings[order[k] as int]@);
    assert(keys[order[0] as int] == -areas[order[0] as int].total_rank());
    assert(keys[order[k] as int] == -areas[order[k] as int].total_rank());
    if k > 0 {
        assert(crate::ordering::key_before(keys, order[0], order[k]));
    }
}

/// A ring of vertices stands for the loop of nodes: every vertex has the node at its place.
pub proof fn loops_keep_their_nodes(rings: Seq<Vec<usize>>, loops: Seq<Vec<u32>>, nodes: Seq<u32>, r: int, k: int)
    requires
        loops_mapped(rings, loops, nodes),
        0 <= r < loops.len(),
        0 <= k < loops[r]@.len(),
    ensures
        rings[r]@.len() == loops[r]@.len(),
        nodes[rings[r]@[k] as int] == loops[r]@[k],
        nodes.contains(loops[r]@[k]),
{
    let vertex = rings[r]@[k];
    assert(vertex < nodes.len());
}

/// A refused region changes nothing but the issues, and the last issue names it and the reason.
pub proof fn refusals_change_no_surface(before: SurfaceBuild, after: SurfaceBuild, region: Region, reason: Seq<char>, loops: Seq<Vec<u32>>)
    requires
        refused(before, after, region, reason, loops),
    ensures
        after.model.spec_surfaces() == before.model.spec_surfaces(),
        after.model.spec_edges() == before.model.spec_edges(),
        after.surface_stiffness@ == before.surface_stiffness@,
        after.issues@.len() == before.issues@.len() + 1,
        after.issues@.last().patch == region.patch,
        after.issues@.last().source_elements@ == region.elements@,
        after.issues@.last().reason@ == reason,
        after.issues@.last().boundary_source_nodes@ == loops,
        forall|k: int| 0 <= k < before.issues@.len() ==> #[trigger] after.issues@[k] == before.issues@[k],
{
    assert forall|k: int| 0 <= k < before.issues@.len() implies #[trigger] after.issues@[k] == before.issues@[k] by {
        assert(after.issues@.drop_last()[k] == before.issues@[k]);
    }
}

/// A built region has the patch, the stiffness and the elements of the region, and leaves the
/// issues alone.
pub proof fn built_regions_keep_their_property(
    before: SurfaceBuild,
    after: SurfaceBuild,
    region: Region,
    rings: Seq<Vec<usize>>,
    measures: Seq<RingMeasure>,
    id: u32,
)
    requires
        built(before, after, region, rings, measures),
    ensures
        after.issues@ == before.issues@,
        after.surface_source_patches@.last() == region.patch,
        after.surface_stiffness@.last() == region.stiffness,
        after.model.spec_surfaces().len() == before.model.spec_surfaces().len() + 1,
        after.model.spec_surfaces().last().source_elements@.contains(id) <==> region.elements@.contains(id),
        after.model.spec_surfaces().last().boundaries@.len() == rings.len(),
{
}

/// Different faults of a contour give different reasons.
pub proof fn reasons_tell_faults_apart(error: Error)
    ensures
        error == Error::InvalidPrecision ==> contour_reason(error) == "contour_InvalidPrecision"@,
        error == Error::InvalidPlane ==> contour_reason(error) == "contour_InvalidPlane"@,
        error == Error::InvalidVertex ==> contour_reason(error) == "contour_InvalidVertex"@,
        error == Error::InvalidRing ==> contour_reason(error) == "contour_InvalidRing"@,
        error == Error::NonPlanar ==> contour_reason(error) == "contour_NonPlanar"@,
        error == Error::ShortEdge ==> contour_reason(error) == "contour_ShortEdge"@,
{
}

/// What follows from a region: a surface where its contours are sound, else an issue. A hole
/// that has collapsed is the reason given where there is one.
pub proof fn sound_contours_are_built(
    before: SurfaceBuild,
    after: SurfaceBuild,
    region: Region,
    loops: Seq<Vec<u32>>,
    rings: Seq<Vec<usize>>,
    measures: Seq<RingMeasure>,
    plane: PlaneFrame,
    degenerate_hole: bool,
)
    requires
        region_added(before, after, region, loops, rings, measures, plane, degenerate_hole),
    ensures
        after.model.spec_surfaces().len() == before.model.spec_surfaces().len() + 1 <==> rings_error(
            before.model.limits(),
            rings,
            measures,
        ) is None,
        after.issues@.len() == before.issues@.len() + 1 <==> rings_error(before.model.limits(), rings, measures) is Some,
        rings_error(before.model.limits(), rings, measures) is Some && degenerate_hole ==> after.issues@.last().reason@
            == "degenerate_hole_after_closure"@,
        rings_error(before.model.limits(), rings, measures) is Some && !degenerate_hole ==> after.issues@.last().reason@
            == contour_reason(rings_error(before.model.limits(), rings, measures)->0),
        after.model.spec_planes().last() == plane,
{
}

/// Points are taken over exactly when no coordinate of any is without a finite value.
pub proof fn finite_points_are_taken_over(points: Seq<Point>, k: int, c: int)
    requires
        0 <= k < points.len(),
        0 <= c < 3,
    ensures
        !points[k][c].finite() ==> !all_finite(points),
{
    assert(c == 0 || c == 1 || c == 2);
}

/// A region is built only where every node of its loops has a vertex.
pub proof fn loops_need_all_their_nodes(loops: Seq<Vec<u32>>, nodes: Seq<u32>, rings: Seq<Vec<usize>>, r: int, k: int)
    requires
        0 <= r < loops.len(),
        0 <= k < loops[r]@.len(),
    ensures
        !nodes.contains(loops[r]@[k]) ==> !loops_known(loops, nodes) && !loops_mapped(rings, loops, nodes),
        loops_mapped(rings, loops, nodes) ==> rings.len() == loops.len(),
{
    if loops_mapped(rings, loops, nodes) {
        assert(rings[r]@.len() == loops[r]@.len());
        let vertex = rings[r]@[k];
        assert(nodes[vertex as int] == loops[r]@[k]);
    }
}

} // verus!
