//! Surface topology preview. Engineering closure tolerance is distinct from
//! numerical planarity. Mechanical ties and mesh readiness are not inferred.
pub mod bars;
pub mod boundary;
pub mod features;
pub mod holes;
pub mod pinch;
pub mod rings;
pub mod supports;
pub mod surfaces;

use vstd::prelude::*;
use crate::connectivity::{components_of, connected, linked_groups, share_label, touch};
use crate::input::{ElementData, MeshData, Point};
use crate::ordering::{all_distinct_ids, append_ids, ascending, copy_ids, unique};
use crate::reconstruction::assembly::boundary::{simple_face, Face};
use crate::reconstruction::assembly::surfaces::SurfaceBuild;
use crate::reconstruction::assembly::pinch::{chosen, deal, ids_of, split_faces, splits, views};
use crate::reconstruction::frame;
use crate::reconstruction::planes::{edge_labels, share_edge, shared_labels_are_edges, StiffnessRegion};
use crate::reconstruction::assembly::features::SimplifiedHole;
use crate::reconstruction::assembly::holes::HoleRecovery;
use crate::reconstruction::{Model, PlaneFrame, Surface};
use crate::registry::Registry;
use crate::scalar::{greatest, greatest_from_zero, positive, Scalar};

verus! {

#[derive(Debug, Clone, Copy)]
pub struct Policy {
    /// Maximum normal deviation when reconciling support planes.
    pub closure_tolerance: Scalar,
    /// Additional displacement allowed when closing shared junctions.
    pub junction_movement_limit: Scalar,
    pub precision: Scalar,
    pub minimum_edge: Scalar,
}

impl Policy {
    pub open spec fn tolerances_valid(&self) -> bool {
        &&& self.closure_tolerance.finite()
        &&& !self.closure_tolerance.lt(self.precision)
        &&& self.junction_movement_limit.finite()
        &&& !self.junction_movement_limit.lt(self.precision)
    }

    pub fn are_tolerances_valid(&self) -> (r: bool)
        ensures
            r == self.tolerances_valid(),
    {
        self.closure_tolerance.is_finite() && !self.closure_tolerance.less(&self.precision)
            && self.junction_movement_limit.is_finite() && !self.junction_movement_limit.less(
            &self.precision,
        )
    }
}

#[derive(Debug)]
pub struct Issue {
    pub patch: usize,
    pub source_elements: Vec<u32>,
    pub reason: String,
    pub boundary_source_nodes: Vec<Vec<u32>>,
}

#[derive(Debug)]
pub struct RegionSplit {
    pub patch: usize,
    pub stiffness: u32,
    pub source_elements: Vec<u32>,
    pub parts: Vec<Vec<u32>>,
}

/// Connected material of one property, with the parts it was opened into.
#[derive(Debug)]
pub struct RegionGroup {
    pub patch: usize,
    pub stiffness: u32,
    pub elements: Vec<u32>,
    pub parts: Vec<Vec<u32>>,
}

/// One property region of a patch.
#[derive(Debug)]
pub struct Region {
    pub patch: usize,
    pub stiffness: u32,
    pub elements: Vec<u32>,
}

#[derive(Debug)]
pub struct RejectedVertex {
    pub source_node: u32,
    pub reason: String,
}

#[derive(Debug)]
pub struct Report {
    pub policy: Policy,
    /// This stage assembles surface property regions and whole axes. It is not
    /// an export gate.
    pub export_ready: bool,
    pub all_surface_patches_built: bool,
    pub preview: Model,
    pub vertex_source_nodes: Vec<u32>,
    pub surface_source_patches: Vec<usize>,
    pub surface_stiffness: Vec<u32>,
    pub pinched_region_splits: Vec<RegionSplit>,
    pub hole_recovery: Vec<HoleRecovery>,
    pub simplified_holes: Vec<SimplifiedHole>,
    pub issues: Vec<Issue>,
    pub maximum_closure_movement: Scalar,
    /// Boundary nodes that could not be closed, ascending.
    pub rejected_vertices: Vec<RejectedVertex>,
    pub support_representatives: Vec<usize>,
    pub support_offset_projection_applied: bool,
    pub axis_assembly: bars::Report,
}

impl Report {
    /// The report on built surfaces and axes: every patch is built if no issue
    /// was left. `closure_movements` gives how far each closed node is from its
    /// candidate.
    pub fn new(
        policy: &Policy,
        build: SurfaceBuild,
        axes: (Model, Vec<u32>, bars::Report),
        pinched_region_splits: Vec<RegionSplit>,
        hole_recovery: Vec<HoleRecovery>,
        simplified_holes: Vec<SimplifiedHole>,
        closure_movements: &Vec<Scalar>,
        rejected_vertices: Vec<RejectedVertex>,
        support_representatives: Vec<usize>,
        support_offset_projection_applied: bool,
    ) -> (r: Report)
        ensures
            r.policy == *policy,
            !r.export_ready,
            r.all_surface_patches_built == (build.issues@.len() == 0),
            r.preview == axes.0,
            r.vertex_source_nodes == axes.1,
            r.axis_assembly == axes.2,
            r.surface_source_patches == build.surface_source_patches,
            r.surface_stiffness == build.surface_stiffness,
            r.issues == build.issues,
            r.pinched_region_splits == pinched_region_splits,
            r.hole_recovery == hole_recovery,
            r.simplified_holes == simplified_holes,
            r.maximum_closure_movement == greatest_from_zero(closure_movements@),
            r.rejected_vertices == rejected_vertices,
            r.support_representatives == support_representatives,
            r.support_offset_projection_applied == support_offset_projection_applied,
    {
        Report {
            policy: *policy,
            export_ready: false,
            all_surface_patches_built: build.issues.len() == 0,
            preview: axes.0,
            vertex_source_nodes: axes.1,
            surface_source_patches: build.surface_source_patches,
            surface_stiffness: build.surface_stiffness,
            pinched_region_splits,
            hole_recovery,
            simplified_holes,
            issues: build.issues,
            maximum_closure_movement: greatest(closure_movements),
            rejected_vertices,
            support_representatives,
            support_offset_projection_applied,
            axis_assembly: axes.2,
        }
    }
}

/// Where no closed node moved beyond a limit, the greatest movement is within it.
pub proof fn closure_stays_within_its_limit(movements: Seq<Scalar>, limit: Scalar)
    requires
        !limit.lt(Scalar::spec_zero()),
        forall|k: int| 0 <= k < movements.len() ==> !limit.lt(#[trigger] movements[k]),
    ensures
        !limit.lt(greatest_from_zero(movements)),
    decreases movements.len(),
{
    if movements.len() > 0 {
        let rest = movements.drop_last();
        assert forall|k: int| 0 <= k < rest.len() implies !limit.lt(#[trigger] rest[k]) by {
            assert(rest[k] == movements[k]);
        }
        closure_stays_within_its_limit(rest, limit);
    }
}

/// Why a frame cannot be assembled; `None` where it can.
pub open spec fn proposal_error(source: frame::Report, policy: Policy) -> Option<Seq<char>> {
    if !policy.tolerances_valid() {
        Some("invalid closure tolerance"@)
    } else if !(positive(policy.precision) && policy.minimum_edge.finite() && policy.precision.lt(
        policy.minimum_edge,
    )) {
        Some("invalid assembly policy"@)
    } else if source.candidate_planes@.len() != source.surfaces@.len()
        || source.candidate_points@.len() != source.node_ids@.len() {
        Some("incomplete frame proposal"@)
    } else {
        None
    }
}

/// An empty model for the surfaces of a frame.
pub fn begin(source: &frame::Report, policy: &Policy) -> (r: Result<Model, &'static str>)
    ensures
        match r {
            Ok(model) => {
                &&& proposal_error(*source, *policy) is None
                &&& model.well_formed()
                &&& model.spec_precision() == policy.precision
                &&& model.spec_minimum_edge() == policy.minimum_edge
                &&& model.spec_vertices() == Seq::<Point>::empty()
                &&& model.spec_planes() == Seq::<PlaneFrame>::empty()
                &&& model.spec_edges() == Seq::<[usize; 2]>::empty()
                &&& model.spec_surfaces() == Seq::<Surface>::empty()
            },
            Err(error) => proposal_error(*source, *policy) == Some(error@),
        },
{
    if !policy.are_tolerances_valid() {
        return Err("invalid closure tolerance");
    }
    let model = match Model::new(policy.precision, policy.minimum_edge) {
        Ok(model) => model,
        Err(_) => {
            return Err("invalid assembly policy");
        },
    };
    if source.candidate_planes.len() != source.surfaces.len() || source.candidate_points.len()
        != source.node_ids.len() {
        return Err("incomplete frame proposal");
    }
    Ok(model)
}

/// Every distance is within the limit.
pub open spec fn all_within(distances: Seq<Vec<Scalar>>, limit: Scalar) -> bool {
    forall|i: int, k: int|
        0 <= i < distances.len() && 0 <= k < distances[i]@.len() ==> (#[trigger] distances[i]@[k]).le(
            limit,
        )
}

/// Whether supports stay close to every node of their surfaces.
#[verifier::loop_isolation(false)]
pub fn supports_stay_close(distances: &Vec<Vec<Scalar>>, limit: &Scalar) -> (r: bool)
    ensures
        r == all_within(distances@, *limit),
{
    let mut i: usize = 0;
    while i < distances.len()
        invariant
            i <= distances.len(),
            forall|j: int, k: int|
                0 <= j < i && 0 <= k < distances@[j]@.len() ==> (#[trigger] distances@[j]@[k]).le(*limit),
        decreases distances.len() - i,
    {
        let mut k: usize = 0;
        while k < distances[i].len()
            invariant
                i < distances.len(),
                k <= distances@[i as int]@.len(),
                forall|m: int| 0 <= m < k ==> (#[trigger] distances@[i as int]@[m]).le(*limit),
            decreases distances@[i as int]@.len() - k,
        {
            if !distances[i][k].at_most(limit) {
                assert(!distances@[i as int]@[k as int].le(*limit));
                return false;
            }
            k += 1;
        }
        i += 1;
    }
    true
}

/// `e` is the last element with the number.
pub open spec fn last_with_id(elements: Seq<ElementData>, id: u32, e: int) -> bool {
    &&& 0 <= e < elements.len()
    &&& elements[e].id == id
    &&& forall|f: int| e < f < elements.len() ==> (#[trigger] elements[f]).id != id
}

pub open spec fn has_id(elements: Seq<ElementData>, id: u32) -> bool {
    exists|e: int| 0 <= e < elements.len() && (#[trigger] elements[e]).id == id
}

pub open spec fn indexes(index: Map<u64, usize>, elements: Seq<ElementData>) -> bool {
    forall|id: u32|
        #![trigger index.dom().contains(id as u64)]
        if index.dom().contains(id as u64) {
            last_with_id(elements, id, index[id as u64] as int)
        } else {
            !has_id(elements, id)
        }
}

/// Finds elements by number.
#[verifier::loop_isolation(false)]
pub fn element_index(mesh: &MeshData) -> (index: Registry)
    ensures
        indexes(index@, mesh.elements@),
{
    let mut index = Registry::new();
    let mut e: usize = 0;
    while e < mesh.elements.len()
        invariant
            e <= mesh.elements.len(),
            forall|id: u32|
                #![trigger index@.dom().contains(id as u64)]
                if index@.dom().contains(id as u64) {
                    last_with_id(mesh.elements@.take(e as int), id, index@[id as u64] as int)
                } else {
                    !has_id(mesh.elements@.take(e as int), id)
                },
        decreases mesh.elements.len() - e,
    {
        let ghost before = index@;
        let ghost short = mesh.elements@.take(e as int);
        let ghost long = mesh.elements@.take(e + 1);
        index.insert(mesh.elements[e].id as u64, e);
        proof {
            let here = mesh.elements@[e as int].id;
            assert forall|id: u32|
                #![trigger index@.dom().contains(id as u64)]
                if index@.dom().contains(id as u64) {
                    last_with_id(long, id, index@[id as u64] as int)
                } else {
                    !has_id(long, id)
                } by {
                assert(before.dom().contains(id as u64) || !before.dom().contains(id as u64));
                if id == here {
                    assert(long[e as int].id == id);
                    assert(last_with_id(long, id, e as int));
                } else if before.dom().contains(id as u64) {
                    assert(last_with_id(short, id, before[id as u64] as int));
                    let f = before[id as u64] as int;
                    assert(long[f] == short[f]);
                    assert forall|g: int| f < g < long.len() implies (#[trigger] long[g]).id != id by {
                        if g < e {
                            assert(long[g] == short[g]);
                        }
                    }
                } else {
                    assert(!has_id(short, id));
                    if has_id(long, id) {
                        let g = choose|g: int| 0 <= g < long.len() && (#[trigger] long[g]).id == id;
                        assert(g < e);
                        assert(short[g].id == id);
                    }
                }
            }
        }
        e += 1;
    }
    assert(mesh.elements@.take(e as int) =~= mesh.elements@);
    index
}

/// Why an element cannot belong to a property region; `None` where it can.
pub open spec fn member_error(
    mesh: MeshData,
    perimeters: Seq<Option<Vec<u32>>>,
    stiffness: u32,
    id: u32,
) -> Option<Seq<char>> {
    if !has_id(mesh.elements@, id) {
        Some("missing property element"@)
    } else {
        let e = choose|e: int| last_with_id(mesh.elements@, id, e);
        if mesh.elements@[e].stiff_id != stiffness {
            Some("property mismatch"@)
        } else {
            match perimeters[e] {
                Some(nodes) => if simple_face(nodes@) {
                    None
                } else {
                    Some("invalid property facet"@)
                },
                None => Some("invalid property facet"@),
            }
        }
    }
}

pub open spec fn first_member_error(
    mesh: MeshData,
    perimeters: Seq<Option<Vec<u32>>>,
    stiffness: u32,
    ids: Seq<u32>,
    from: int,
) -> Option<Seq<char>>
    decreases ids.len() - from,
{
    if from >= ids.len() {
        None
    } else {
        match member_error(mesh, perimeters, stiffness, ids[from]) {
            Some(error) => Some(error),
            None => first_member_error(mesh, perimeters, stiffness, ids, from + 1),
        }
    }
}

pub open spec fn first_region_error(
    mesh: MeshData,
    perimeters: Seq<Option<Vec<u32>>>,
    regions: Seq<StiffnessRegion>,
    from: int,
) -> Option<Seq<char>>
    decreases regions.len() - from,
{
    if from >= regions.len() {
        None
    } else {
        match first_member_error(
            mesh,
            perimeters,
            regions[from].stiffness,
            regions[from].elements@,
            0,
        ) {
            Some(error) => Some(error),
            None => first_region_error(mesh, perimeters, regions, from + 1),
        }
    }
}

pub open spec fn represented(regions: Seq<StiffnessRegion>, upto: int) -> Seq<u32>
    decreases upto,
{
    if upto <= 0 {
        Seq::empty()
    } else {
        represented(regions, upto - 1) + regions[upto - 1].elements@
    }
}

/// The property regions hold exactly the elements of the surface, each once.
pub open spec fn coverage_valid(surface: frame::Surface) -> bool {
    let all = represented(surface.stiffness_regions@, surface.stiffness_regions@.len() as int);
    &&& all.no_duplicates()
    &&& forall|id: u32| #[trigger] all.contains(id) <==> surface.source_elements@.contains(id)
}

pub open spec fn surface_failure(
    mesh: MeshData,
    perimeters: Seq<Option<Vec<u32>>>,
    surface: frame::Surface,
) -> Option<Seq<char>> {
    if !coverage_valid(surface) {
        Some("invalid property coverage"@)
    } else {
        first_region_error(mesh, perimeters, surface.stiffness_regions@, 0)
    }
}

pub open spec fn first_surface_failure(
    mesh: MeshData,
    perimeters: Seq<Option<Vec<u32>>>,
    surfaces: Seq<frame::Surface>,
    from: int,
) -> Option<Seq<char>>
    decreases surfaces.len() - from,
{
    if from >= surfaces.len() {
        None
    } else {
        match surface_failure(mesh, perimeters, surfaces[from]) {
            Some(error) => Some(error),
            None => first_surface_failure(mesh, perimeters, surfaces, from + 1),
        }
    }
}

/// The faces of a property region, ascending by number.
pub open spec fn region_faces(
    faces: Seq<Face>,
    mesh: MeshData,
    perimeters: Seq<Option<Vec<u32>>>,
    ids: Seq<u32>,
) -> bool {
    &&& crate::ordering::lists_distinct(ids_of(faces), ids)
    &&& forall|f: int| 0 <= f < faces.len() ==> #[trigger] region_face(faces[f], mesh, perimeters)
}

pub open spec fn region_face(face: Face, mesh: MeshData, perimeters: Seq<Option<Vec<u32>>>) -> bool {
    exists|e: int| #[trigger]
        last_with_id(mesh.elements@, face.id, e) && perimeters[e] is Some && face.nodes@
            == perimeters[e]->0@
}

/// Faces that share an edge.
pub open spec fn sharing(faces: Seq<Face>) -> spec_fn(int, int) -> bool {
    |a: int, b: int|
        0 <= a < faces.len() && 0 <= b < faces.len() && share_edge(
            faces[a].nodes@,
            faces[b].nodes@,
        )
}

/// The groups of one property region: its material by edge connectivity, each
/// opened at pinched nodes. A point contact joins nothing.
pub open spec fn groups_of_region(
    list: Seq<RegionGroup>,
    patch: usize,
    stiffness: u32,
    faces: Seq<Face>,
    groups: Seq<Vec<usize>>,
) -> bool {
    &&& components_of(groups, faces.len() as int, sharing(faces))
    &&& list.len() == groups.len()
    &&& forall|g: int|
        0 <= g < groups.len() ==> {
            let group = #[trigger] list[g];
            &&& group.patch == patch
            &&& group.stiffness == stiffness
            &&& group.elements@ == ids_of(chosen(faces, groups[g]@))
            &&& splits(chosen(faces, groups[g]@), views(group.parts@))
        }
}

pub open spec fn region_grouped(
    list: Seq<RegionGroup>,
    mesh: MeshData,
    perimeters: Seq<Option<Vec<u32>>>,
    patch: usize,
    region: StiffnessRegion,
) -> bool {
    exists|faces: Seq<Face>, groups: Seq<Vec<usize>>| #[trigger]
        groups_of_region(list, patch, region.stiffness, faces, groups) && region_faces(
            faces,
            mesh,
            perimeters,
            region.elements@,
        )
}

/// `list` holds the groups of all regions of the first `done` surfaces and of
/// the first `part` regions of the next one, in this order.
pub open spec fn regions_grouped(
    list: Seq<RegionGroup>,
    mesh: MeshData,
    perimeters: Seq<Option<Vec<u32>>>,
    surfaces: Seq<frame::Surface>,
    done: int,
    part: int,
) -> bool
    decreases done, part,
{
    if part > 0 {
        exists|m: int|
            0 <= m <= list.len() && regions_grouped(
                list.take(m),
                mesh,
                perimeters,
                surfaces,
                done,
                part - 1,
            ) && #[trigger] region_grouped(
                list.skip(m),
                mesh,
                perimeters,
                done as usize,
                surfaces[done].stiffness_regions@[part - 1],
            )
    } else if done > 0 {
        regions_grouped(
            list,
            mesh,
            perimeters,
            surfaces,
            done - 1,
            surfaces[done - 1].stiffness_regions@.len() as int,
        )
    } else {
        list.len() == 0
    }
}

fn member_failure(
    mesh: &MeshData,
    perimeters: &Vec<Option<Vec<u32>>>,
    index: &Registry,
    stiffness: u32,
    id: u32,
) -> (r: Option<&'static str>)
    requires
        indexes(index@, mesh.elements@),
        perimeters@.len() == mesh.elements@.len(),
    ensures
        match r {
            Some(error) => member_error(*mesh, perimeters@, stiffness, id) == Some(error@),
            None => {
                &&& member_error(*mesh, perimeters@, stiffness, id) is None
                &&& index@.dom().contains(id as u64)
                &&& perimeters@[index@[id as u64] as int] is Some
                &&& simple_face(perimeters@[index@[id as u64] as int]->0@)
            },
        },
{
    match index.get(id as u64) {
        None => Some("missing property element"),
        Some(e) => {
            proof {
                assert(index@.dom().contains(id as u64));
                assert(last_with_id(mesh.elements@, id, e as int));
                assert(mesh.elements@[e as int].id == id);
                let chosen_e = choose|x: int| last_with_id(mesh.elements@, id, x);
                last_is_unique(mesh.elements@, id, e as int, chosen_e);
            }
            if mesh.elements[e].stiff_id != stiffness {
                return Some("property mismatch");
            }
            match &perimeters[e] {
                Some(nodes) => {
                    if nodes.len() < 3 || !all_distinct_ids(nodes) {
                        Some("invalid property facet")
                    } else {
                        None
                    }
                },
                None => Some("invalid property facet"),
            }
        },
    }
}

proof fn last_is_unique(elements: Seq<ElementData>, id: u32, e: int, f: int)
    requires
        last_with_id(elements, id, e),
        last_with_id(elements, id, f),
    ensures
        e == f,
{
    if e < f {
        assert(elements[f].id != id);
    } else if f < e {
        assert(elements[e].id != id);
    }
}

#[verifier::loop_isolation(false)]
fn is_coverage_valid(surface: &frame::Surface) -> (r: bool)
    ensures
        r == coverage_valid(*surface),
{
    let mut all: Vec<u32> = Vec::new();
    let mut k: usize = 0;
    while k < surface.stiffness_regions.len()
        invariant
            k <= surface.stiffness_regions.len(),
            all@ == represented(surface.stiffness_regions@, k as int),
        decreases surface.stiffness_regions.len() - k,
    {
        append_ids(&mut all, &surface.stiffness_regions[k].elements);
        k += 1;
    }
    if !all_distinct_ids(&all) {
        return false;
    }
    let ghost source = all@;
    let have = unique(all);
    let want = unique(copy_ids(&surface.source_elements));
    if have.len() != want.len() {
        proof {
            if coverage_valid(*surface) {
                assert forall|x: u32| have@.contains(x) <==> want@.contains(x) by {
                    assert(source.contains(x) <==> surface.source_elements@.contains(x));
                }
                crate::ordering::ascending_determined(have@, want@);
            }
        }
        return false;
    }
    let mut i: usize = 0;
    while i < have.len()
        invariant
            i <= have.len(),
            have.len() == want.len(),
            forall|m: int| 0 <= m < i ==> have@[m] == want@[m],
        decreases have.len() - i,
    {
        if have[i] != want[i] {
            proof {
                if coverage_valid(*surface) {
                    assert forall|x: u32| have@.contains(x) <==> want@.contains(x) by {
                        assert(source.contains(x) <==> surface.source_elements@.contains(x));
                    }
                    crate::ordering::ascending_determined(have@, want@);
                }
            }
            return false;
        }
        i += 1;
    }
    proof {
        assert(have@ =~= want@);
        assert forall|id: u32| #[trigger] source.contains(id) <==> surface.source_elements@.contains(id) by {
            assert(have@.contains(id) <==> source.contains(id));
            assert(want@.contains(id) <==> surface.source_elements@.contains(id));
        }
    }
    true
}

/// Groups of one property region whose members were all found valid.
#[verifier::loop_isolation(false)]
fn group_region(
    mesh: &MeshData,
    perimeters: &Vec<Option<Vec<u32>>>,
    index: &Registry,
    patch: usize,
    region: &StiffnessRegion,
) -> (list: Vec<RegionGroup>)
    requires
        indexes(index@, mesh.elements@),
        perimeters@.len() == mesh.elements@.len(),
        forall|k: int|
            0 <= k < region.elements@.len() ==> {
                let id = #[trigger] region.elements@[k];
                &&& index@.dom().contains(id as u64)
                &&& perimeters@[index@[id as u64] as int] is Some
                &&& simple_face(perimeters@[index@[id as u64] as int]->0@)
            },
    ensures
        region_grouped(list@, *mesh, perimeters@, patch, *region),
{
    let ids = unique(copy_ids(&region.elements));
    let mut faces: Vec<Face> = Vec::new();
    let mut k: usize = 0;
    while k < ids.len()
        invariant
            k <= ids.len(),
            faces.len() == k,
            forall|f: int|
                0 <= f < k ==> (#[trigger] faces@[f]).id == ids@[f] && region_face(
                    faces@[f],
                    *mesh,
                    perimeters@,
                ) && simple_face(faces@[f].nodes@),
        decreases ids.len() - k,
    {
        let id: u32 = ids[k];
        proof {
            assert(ids@.contains(id));
            assert(region.elements@.contains(id));
            let m = choose|m: int| 0 <= m < region.elements@.len() && region.elements@[m] == id;
            assert(index@.dom().contains(region.elements@[m] as u64));
        }
        let e: usize = match index.get(id as u64) {
            Some(e) => e,
            None => 0,
        };
        assert(last_with_id(mesh.elements@, id, e as int));
        let ghost before = faces@;
        match &perimeters[e] {
            Some(nodes) => {
                faces.push(Face { id, nodes: copy_ids(nodes) });
                proof {
                    let face = faces@[k as int];
                    assert(face.nodes@ == perimeters@[e as int]->0@);
                    assert(simple_face(face.nodes@));
                    assert(face.id == id);
                    assert(last_with_id(mesh.elements@, face.id, e as int));
                    assert(region_face(face, *mesh, perimeters@));
                }
            },
            None => {
                assert(false);
            },
        }
        assert forall|f: int|
            0 <= f < k + 1 implies (#[trigger] faces@[f]).id == ids@[f] && region_face(faces@[f], *mesh, perimeters@) && simple_face(faces@[f].nodes@) by {
            if f < k {
                assert(faces@[f] == before[f]);
            }
        }
        k += 1;
    }
    let ghost source = faces@;
    proof {
        assert(ids_of(source) =~= ids@);
        assert forall|f: int| 0 <= f < source.len() implies #[trigger] region_face(source[f], *mesh, perimeters@) by {
            assert(source[f].id == ids@[f]);
        }
        assert(region_faces(source, *mesh, perimeters@, region.elements@));
        assert forall|f: int| 0 <= f < source.len() implies simple_face((#[trigger] source[f]).nodes@) by {}
    }
    let groups = edge_groups(&faces);
    let mut piles = deal(faces, &groups, Ghost(sharing(source)));
    let ghost dealt = piles@;
    let mut reversed: Vec<RegionGroup> = Vec::new();
    let mut left: usize = piles.len();
    while left > 0
        invariant
            left == piles.len(),
            left <= groups.len(),
            dealt.len() == groups.len(),
            piles@ == dealt.take(left as int),
            reversed.len() == groups.len() - left,
            forall|k: int|
                0 <= k < reversed.len() ==> {
                    let group = #[trigger] reversed@[k];
                    let members = chosen(source, groups@[groups.len() - 1 - k]@);
                    &&& group.patch == patch
                    &&& group.stiffness == region.stiffness
                    &&& group.elements@ == ids_of(members)
                    &&& splits(members, views(group.parts@))
                },
        decreases left,
    {
        match piles.pop() {
            Some(pile) => {
                proof {
                    assert(pile == dealt[left - 1]);
                    assert(pile@ == chosen(source, groups@[left - 1]@));
                    assert forall|f: int| 0 <= f < pile@.len() implies simple_face((#[trigger] pile@[f]).nodes@) by {
                        assert(groups@[left - 1]@[f] < source.len());
                        assert(pile@[f] == source[groups@[left - 1]@[f] as int]);
                    }
                }
                let elements = pinch::all_ids(&pile);
                let parts = split_faces(pile);
                reversed.push(
                    RegionGroup { patch, stiffness: region.stiffness, elements, parts },
                );
            },
            None => {},
        }
        assert(piles@ =~= dealt.take(left - 1));
        left -= 1;
    }
    let ghost turned = reversed@;
    let mut list: Vec<RegionGroup> = Vec::new();
    let mut rest: usize = reversed.len();
    while rest > 0
        invariant
            rest == reversed.len(),
            rest <= turned.len(),
            reversed@ == turned.take(rest as int),
            list.len() == turned.len() - rest,
            forall|k: int| 0 <= k < list.len() ==> #[trigger] list@[k] == turned[turned.len() - 1 - k],
        decreases rest,
    {
        match reversed.pop() {
            Some(group) => {
                list.push(group);
            },
            None => {},
        }
        assert(reversed@ =~= turned.take(rest - 1));
        rest -= 1;
    }
    proof {
        assert forall|g: int| 0 <= g < groups@.len() implies {
            let group = #[trigger] list@[g];
            &&& group.patch == patch
            &&& group.stiffness == region.stiffness
            &&& group.elements@ == ids_of(chosen(source, groups@[g]@))
            &&& splits(chosen(source, groups@[g]@), views(group.parts@))
        } by {
            assert(list@[g] == turned[turned.len() - 1 - g]);
        }
        assert(groups_of_region(list@, patch, region.stiffness, source, groups@));
    }
    list
}

/// Faces by shared edges.
fn edge_groups(faces: &Vec<Face>) -> (groups: Vec<Vec<usize>>)
    ensures
        components_of(groups@, faces@.len() as int, sharing(faces@)),
{
    let rings = pinch::face_rings(faces);
    let labels = edge_labels(&rings);
    let groups = linked_groups(&labels);
    proof {
        let n = faces@.len() as int;
        assert forall|a: int, b: int| 0 <= a < n && 0 <= b < n implies (#[trigger] share_label(labels@)(a, b) <==> sharing(faces@)(a, b)) by {
            shared_labels_are_edges(rings@, labels@, a, b);
            assert(rings@[a]@ == faces@[a].nodes@ && rings@[b]@ == faces@[b].nodes@);
        }
        assert forall|x: int, y: int| 0 <= x < n && 0 <= y < n && #[trigger] touch(share_label(labels@), x, y) implies connected(n, sharing(faces@), x, y) by {
            assert(share_label(labels@)(x, y) <==> sharing(faces@)(x, y));
            assert(share_label(labels@)(y, x) <==> sharing(faces@)(y, x));
            crate::connectivity::connected_step(n, sharing(faces@), x, y);
        }
        assert forall|x: int, y: int| 0 <= x < n && 0 <= y < n && #[trigger] touch(sharing(faces@), x, y) implies connected(n, share_label(labels@), x, y) by {
            assert(share_label(labels@)(x, y) <==> sharing(faces@)(x, y));
            assert(share_label(labels@)(y, x) <==> sharing(faces@)(y, x));
            crate::connectivity::connected_step(n, share_label(labels@), x, y);
        }
        crate::connectivity::components_transfer(groups@, n, share_label(labels@), sharing(faces@));
    }
    groups
}

proof fn regions_extend(
    list: Seq<RegionGroup>,
    m: int,
    mesh: MeshData,
    perimeters: Seq<Option<Vec<u32>>>,
    surfaces: Seq<frame::Surface>,
    done: int,
    part: int,
)
    requires
        part > 0,
        0 <= m <= list.len(),
        regions_grouped(list.take(m), mesh, perimeters, surfaces, done, part - 1),
        region_grouped(
            list.skip(m),
            mesh,
            perimeters,
            done as usize,
            surfaces[done].stiffness_regions@[part - 1],
        ),
    ensures
        regions_grouped(list, mesh, perimeters, surfaces, done, part),
{
}

/// Splits property regions by edge connectivity; a point contact does not turn
/// two separate material areas into one polygon with an invalid hole.
/// `perimeters` holds the perimeter of each source element in its patch.
#[verifier::loop_isolation(false)]
pub fn property_regions(
    mesh: &MeshData,
    surfaces: &Vec<frame::Surface>,
    perimeters: &Vec<Option<Vec<u32>>>,
) -> (r: Result<Vec<RegionGroup>, &'static str>)
    requires
        perimeters@.len() == mesh.elements@.len(),
    ensures
        match r {
            Ok(list) => first_surface_failure(*mesh, perimeters@, surfaces@, 0) is None
                && regions_grouped(
                list@,
                *mesh,
                perimeters@,
                surfaces@,
                surfaces@.len() as int,
                0,
            ),
            Err(error) => first_surface_failure(*mesh, perimeters@, surfaces@, 0) == Some(error@),
        },
{
    let index = element_index(mesh);
    let mut list: Vec<RegionGroup> = Vec::new();
    let mut s: usize = 0;
    while s < surfaces.len()
        invariant
            s <= surfaces.len(),
            first_surface_failure(*mesh, perimeters@, surfaces@, 0) == first_surface_failure(
                *mesh,
                perimeters@,
                surfaces@,
                s as int,
            ),
            regions_grouped(list@, *mesh, perimeters@, surfaces@, s as int, 0),
        decreases surfaces.len() - s,
    {
        if !is_coverage_valid(&surfaces[s]) {
            return Err("invalid property coverage");
        }
        let ghost regions = surfaces@[s as int].stiffness_regions@;
        let mut r: usize = 0;
        while r < surfaces[s].stiffness_regions.len()
            invariant
                r <= regions.len(),
                first_region_error(*mesh, perimeters@, regions, 0) == first_region_error(
                    *mesh,
                    perimeters@,
                    regions,
                    r as int,
                ),
                regions_grouped(list@, *mesh, perimeters@, surfaces@, s as int, r as int),
            decreases regions.len() - r,
        {
            let region = &surfaces[s].stiffness_regions[r];
            let mut k: usize = 0;
            while k < region.elements.len()
                invariant
                    k <= region.elements@.len(),
                    first_member_error(
                        *mesh,
                        perimeters@,
                        region.stiffness,
                        region.elements@,
                        0,
                    ) == first_member_error(
                        *mesh,
                        perimeters@,
                        region.stiffness,
                        region.elements@,
                        k as int,
                    ),
                    forall|m: int|
                        0 <= m < k ==> {
                            let id = #[trigger] region.elements@[m];
                            &&& index@.dom().contains(id as u64)
                            &&& perimeters@[index@[id as u64] as int] is Some
                            &&& simple_face(perimeters@[index@[id as u64] as int]->0@)
                        },
                decreases region.elements@.len() - k,
            {
                match member_failure(mesh, perimeters, &index, region.stiffness, region.elements[k]) {
                    Some(error) => {
                        return Err(error);
                    },
                    None => {},
                }
                k += 1;
            }
            let ghost before = list@;
            let mut added = group_region(mesh, perimeters, &index, s, region);
            let ghost new = added@;
            list.append(&mut added);
            proof {
                let m = before.len() as int;
                assert(list@ == before + new);
                assert(list@.take(m) =~= before);
                assert(list@.skip(m) =~= new);
                regions_extend(list@, m, *mesh, perimeters@, surfaces@, s as int, r + 1);
            }
            r += 1;
        }
        s += 1;
    }
    Ok(list)
}

/// The groups that were opened at pinched nodes, in order.
pub open spec fn split_records(list: Seq<RegionGroup>) -> Seq<RegionGroup> {
    list.filter(|group: RegionGroup| group.parts@.len() > 1)
}

pub open spec fn records_match(records: Seq<RegionSplit>, groups: Seq<RegionGroup>) -> bool {
    &&& records.len() == groups.len()
    &&& forall|k: int|
        0 <= k < records.len() ==> {
            &&& (#[trigger] records[k]).patch == groups[k].patch
            &&& records[k].stiffness == groups[k].stiffness
            &&& records[k].source_elements@ == groups[k].elements@
            &&& views(records[k].parts@) == views(groups[k].parts@)
        }
}

fn copy_lists(lists: &Vec<Vec<u32>>) -> (r: Vec<Vec<u32>>)
    ensures
        views(r@) == views(lists@),
{
    let mut r: Vec<Vec<u32>> = Vec::new();
    let mut k: usize = 0;
    while k < lists.len()
        invariant
            k <= lists.len(),
            r.len() == k,
            forall|m: int| 0 <= m < k ==> (#[trigger] r@[m])@ == lists@[m]@,
        decreases lists.len() - k,
    {
        r.push(copy_ids(&lists[k]));
        k += 1;
    }
    assert(views(r@) =~= views(lists@));
    r
}

/// Reports every region that was opened.
pub fn pinched_region_splits(list: &Vec<RegionGroup>) -> (records: Vec<RegionSplit>)
    ensures
        records_match(records@, split_records(list@)),
{
    let mut records: Vec<RegionSplit> = Vec::new();
    let mut k: usize = 0;
    while k < list.len()
        invariant
            k <= list.len(),
            records_match(records@, split_records(list@.take(k as int))),
        decreases list.len() - k,
    {
        let group = &list[k];
        proof {
            reveal(Seq::filter);
            assert(list@.take(k + 1).drop_last() =~= list@.take(k as int));
            assert(list@.take(k + 1).last() == *group);
        }
        if group.parts.len() > 1 {
            let ghost before = records@;
            records.push(
                RegionSplit {
                    patch: group.patch,
                    stiffness: group.stiffness,
                    source_elements: copy_ids(&group.elements),
                    parts: copy_lists(&group.parts),
                },
            );
            assert forall|m: int| 0 <= m < before.len() implies #[trigger] records@[m] == before[m] by {}
        }
        k += 1;
    }
    assert(list@.take(k as int) =~= list@);
    records
}

/// All parts of the first `upto` groups, one after the other.
pub open spec fn part_list(list: Seq<RegionGroup>, upto: int) -> Seq<(usize, u32, Seq<u32>)>
    decreases upto,
{
    if upto <= 0 {
        Seq::empty()
    } else {
        let group = list[upto - 1];
        part_list(list, upto - 1) + Seq::new(
            group.parts@.len(),
            |p: int| (group.patch, group.stiffness, group.parts@[p]@),
        )
    }
}

pub open spec fn region_list(regions: Seq<Region>) -> Seq<(usize, u32, Seq<u32>)> {
    regions.map_values(|region: Region| (region.patch, region.stiffness, region.elements@))
}

/// Every part as a region of its own.
#[verifier::loop_isolation(false)]
pub fn flatten_regions(list: &Vec<RegionGroup>) -> (regions: Vec<Region>)
    ensures
        region_list(regions@) == part_list(list@, list@.len() as int),
{
    let mut regions: Vec<Region> = Vec::new();
    let mut k: usize = 0;
    while k < list.len()
        invariant
            k <= list.len(),
            region_list(regions@) == part_list(list@, k as int),
        decreases list.len() - k,
    {
        let group = &list[k];
        let ghost before = region_list(regions@);
        let ghost whole = Seq::new(group.parts@.len(), |p: int| (group.patch, group.stiffness, group.parts@[p]@));
        let mut p: usize = 0;
        while p < group.parts.len()
            invariant
                p <= group.parts@.len(),
                region_list(regions@) == before + whole.take(p as int),
            decreases group.parts@.len() - p,
        {
            let ghost earlier = regions@;
            regions.push(
                Region {
                    patch: group.patch,
                    stiffness: group.stiffness,
                    elements: copy_ids(&group.parts[p]),
                },
            );
            proof {
                assert(region_list(regions@) =~= region_list(earlier).push(whole[p as int]));
                assert(whole.take(p + 1) =~= whole.take(p as int).push(whole[p as int]));
                assert(before + whole.take(p + 1) =~= (before + whole.take(p as int)).push(whole[p as int]));
            }
            p += 1;
        }
        assert(whole.take(p as int) =~= whole);
        k += 1;
    }
    regions
}

/// A frame is assembled exactly under finite tolerances that are not below the precision, a
/// positive precision that is below the least edge, and with a plane for every surface and a
/// point for every node.
pub proof fn whole_frames_are_assembled(source: frame::Report, policy: Policy)
    ensures
        proposal_error(source, policy) is None <==> {
            &&& policy.closure_tolerance.finite() && !policy.closure_tolerance.lt(policy.precision)
            &&& policy.junction_movement_limit.finite() && !policy.junction_movement_limit.lt(policy.precision)
            &&& positive(policy.precision) && policy.minimum_edge.finite() && policy.precision.lt(policy.minimum_edge)
            &&& source.candidate_planes@.len() == source.surfaces@.len()
            &&& source.candidate_points@.len() == source.node_ids@.len()
        },
{
}

/// An element is found by its number, and the last one with it counts.
pub proof fn elements_are_found_by_number(index: Map<u64, usize>, elements: Seq<ElementData>, e: int)
    requires
        indexes(index, elements),
        0 <= e < elements.len(),
    ensures
        index.dom().contains(elements[e].id as u64),
        elements[index[elements[e].id as u64] as int].id == elements[e].id,
        e <= index[elements[e].id as u64],
{
    let id = elements[e].id;
    if !index.dom().contains(id as u64) {
        assert(!has_id(elements, id));
    }
    assert(last_with_id(elements, id, index[id as u64] as int));
}

/// A member of a region that is taken exists, has the stiffness of the region and a simple
/// perimeter; any other is refused.
pub proof fn members_fit_their_region(mesh: MeshData, perimeters: Seq<Option<Vec<u32>>>, stiffness: u32, id: u32, e: int)
    requires
        last_with_id(mesh.elements@, id, e),
        perimeters.len() == mesh.elements@.len(),
    ensures
        member_error(mesh, perimeters, stiffness, id) is None <==> mesh.elements@[e].stiff_id == stiffness && (
        perimeters[e] matches Some(nodes) && simple_face(nodes@)),
        mesh.elements@[e].stiff_id != stiffness ==> member_error(mesh, perimeters, stiffness, id) == Some("property mismatch"@),
{
    let f = choose|f: int| last_with_id(mesh.elements@, id, f);
    assert(mesh.elements@[e].id == id);
    last_is_unique(mesh.elements@, id, e, f);
}

/// An element that the mesh does not hold is missed.
pub proof fn missing_members_are_refused(mesh: MeshData, perimeters: Seq<Option<Vec<u32>>>, stiffness: u32, id: u32)
    requires
        forall|e: int| 0 <= e < mesh.elements@.len() ==> (#[trigger] mesh.elements@[e]).id != id,
    ensures
        member_error(mesh, perimeters, stiffness, id) == Some("missing property element"@),
{
}

/// Where members are taken, each of them is.
pub proof fn every_member_is_looked_at(mesh: MeshData, perimeters: Seq<Option<Vec<u32>>>, stiffness: u32, ids: Seq<u32>, from: int, k: int)
    requires
        0 <= from <= k < ids.len(),
        first_member_error(mesh, perimeters, stiffness, ids, from) is None,
    ensures
        member_error(mesh, perimeters, stiffness, ids[k]) is None,
    decreases ids.len() - from,
{
    if from < k {
        every_member_is_looked_at(mesh, perimeters, stiffness, ids, from + 1, k);
    }
}

/// Where regions are taken, each of them is.
pub proof fn every_region_is_looked_at(mesh: MeshData, perimeters: Seq<Option<Vec<u32>>>, regions: Seq<StiffnessRegion>, from: int, k: int)
    requires
        0 <= from <= k < regions.len(),
        first_region_error(mesh, perimeters, regions, from) is None,
    ensures
        first_member_error(mesh, perimeters, regions[k].stiffness, regions[k].elements@, 0) is None,
    decreases regions.len() - from,
{
    if from < k {
        every_region_is_looked_at(mesh, perimeters, regions, from + 1, k);
    }
}

/// Where surfaces are taken, each of them is, and its regions hold exactly its elements.
pub proof fn every_surface_is_looked_at(mesh: MeshData, perimeters: Seq<Option<Vec<u32>>>, surfaces: Seq<frame::Surface>, from: int, k: int)
    requires
        0 <= from <= k < surfaces.len(),
        first_surface_failure(mesh, perimeters, surfaces, from) is None,
    ensures
        coverage_valid(surfaces[k]),
        first_region_error(mesh, perimeters, surfaces[k].stiffness_regions@, 0) is None,
    decreases surfaces.len() - from,
{
    if from < k {
        every_surface_is_looked_at(mesh, perimeters, surfaces, from + 1, k);
    }
}

/// The elements that regions hold.
pub proof fn regions_hold_their_elements(regions: Seq<StiffnessRegion>, upto: int, id: u32)
    requires
        0 <= upto <= regions.len(),
    ensures
        represented(regions, upto).contains(id) <==> exists|r: int| 0 <= r < upto && (#[trigger] regions[r]).elements@.contains(id),
    decreases upto,
{
    if upto > 0 {
        regions_hold_their_elements(regions, upto - 1, id);
        crate::shares::contains_either(represented(regions, upto - 1), regions[upto - 1].elements@, id);
    }
}

/// Every part of every group is a region, with the patch and the stiffness of its group, and
/// there is no other.
pub proof fn parts_become_regions(list: Seq<RegionGroup>, upto: int, entry: (usize, u32, Seq<u32>))
    requires
        0 <= upto <= list.len(),
    ensures
        part_list(list, upto).contains(entry) <==> exists|g: int, p: int|
            0 <= g < upto && 0 <= p < list[g].parts@.len() && entry == (list[g].patch, list[g].stiffness, (#[trigger] list[g].parts@[p])@),
    decreases upto,
{
    if upto > 0 {
        parts_become_regions(list, upto - 1, entry);
        let group = list[upto - 1];
        let rest = part_list(list, upto - 1);
        let more = Seq::new(group.parts@.len(), |p: int| (group.patch, group.stiffness, group.parts@[p]@));
        let all = part_list(list, upto);
        assert(all == rest + more);
        if all.contains(entry) {
            let m = choose|m: int| 0 <= m < all.len() && all[m] == entry;
            if m < rest.len() {
                assert(rest[m] == entry);
                let (g, p) = choose|g: int, p: int|
                    0 <= g < upto - 1 && 0 <= p < list[g].parts@.len() && entry == (
                        list[g].patch,
                        list[g].stiffness,
                        (#[trigger] list[g].parts@[p])@,
                    );
                assert(list[g].parts@[p]@ == entry.2);
            } else {
                let p = m - rest.len();
                assert(more[p] == entry);
                assert(list[upto - 1].parts@[p]@ == entry.2);
            }
        }
        if exists|g: int, p: int|
            0 <= g < upto && 0 <= p < list[g].parts@.len() && entry == (list[g].patch, list[g].stiffness, (#[trigger] list[g].parts@[p])@) {
            let (g, p) = choose|g: int, p: int|
                0 <= g < upto && 0 <= p < list[g].parts@.len() && entry == (
                    list[g].patch,
                    list[g].stiffness,
                    (#[trigger] list[g].parts@[p])@,
                );
            if g < upto - 1 {
                assert(list[g].parts@[p]@ == entry.2);
                assert(rest.contains(entry));
                let m = choose|m: int| 0 <= m < rest.len() && rest[m] == entry;
                assert(all[m] == entry);
            } else {
                assert(more[p] == entry);
                assert(all[rest.len() + p] == entry);
            }
        }
    }
}

/// A group is on record as opened exactly when it has two parts or more.
pub proof fn opened_groups_are_on_record(list: Seq<RegionGroup>, group: RegionGroup)
    ensures
        split_records(list).contains(group) <==> list.contains(group) && group.parts@.len() >= 2,
{
    let pred = |group: RegionGroup| group.parts@.len() > 1;
    if list.contains(group) && group.parts@.len() >= 2 {
        let i = choose|i: int| 0 <= i < list.len() && list[i] == group;
        list.lemma_filter_contains(pred, i);
    }
    if split_records(list).contains(group) {
        list.lemma_filter_contains_rev(pred, group);
        let i = choose|i: int| 0 <= i < list.filter(pred).len() && list.filter(pred)[i] == group;
        list.lemma_filter_pred(pred, i);
    }
}

/// A group of a region keeps its patch and its stiffness, and its elements are faces of the
/// region that hold together by their edges.
pub proof fn groups_keep_their_property(
    list: Seq<RegionGroup>,
    patch: usize,
    stiffness: u32,
    faces: Seq<Face>,
    groups: Seq<Vec<usize>>,
    g: int,
    k: int,
)
    requires
        groups_of_region(list, patch, stiffness, faces, groups),
        0 <= g < list.len(),
        0 <= k < list[g].elements@.len(),
    ensures
        list[g].patch == patch,
        list[g].stiffness == stiffness,
        list[g].elements@.len() == groups[g]@.len(),
        groups[g]@[k] < faces.len(),
        list[g].elements@[k] == faces[groups[g]@[k] as int].id,
        connected(faces.len() as int, sharing(faces), groups[g]@[0] as int, groups[g]@[k] as int),
{
    let group = list[g];
    assert(group.elements@ == ids_of(chosen(faces, groups[g]@)));
    assert(components_of(groups, faces.len() as int, sharing(faces)));
}

/// Two faces of a region that have an edge in common stay in one group.
pub proof fn edge_neighbours_stay_together(
    list: Seq<RegionGroup>,
    patch: usize,
    stiffness: u32,
    faces: Seq<Face>,
    groups: Seq<Vec<usize>>,
    a: usize,
    b: usize,
    g: int,
)
    requires
        groups_of_region(list, patch, stiffness, faces, groups),
        a < faces.len() && b < faces.len(),
        share_edge(faces[a as int].nodes@, faces[b as int].nodes@),
        0 <= g < groups.len(),
        groups[g]@.contains(a),
    ensures
        groups[g]@.contains(b),
        list[g].elements@.contains(faces[b as int].id),
{
    let rel = sharing(faces);
    assert(rel(a as int, b as int));
    crate::connectivity::connected_step(faces.len() as int, rel, a as int, b as int);
    let k = choose|k: int| 0 <= k < groups[g]@.len() && groups[g]@[k] == a;
    assert(crate::connectivity::in_some_group(groups, b as int));
    let (h, m) = choose|h: int, m: int| 0 <= h < groups.len() && 0 <= m < groups[h]@.len() && #[trigger] groups[h]@[m] == b as int;
    assert(connected(faces.len() as int, rel, groups[g]@[k] as int, groups[h]@[m] as int));
    assert(groups[g]@[m] == b);
    assert(list[g].elements@ == ids_of(chosen(faces, groups[g]@)));
    assert(list[g].elements@[m] == faces[b as int].id);
}

/// A face of a region has the number and the perimeter of its element.
pub proof fn region_faces_are_their_elements(face: Face, mesh: MeshData, perimeters: Seq<Option<Vec<u32>>>, e: int)
    requires
        region_face(face, mesh, perimeters),
        last_with_id(mesh.elements@, face.id, e),
    ensures
        perimeters[e] matches Some(nodes) && face.nodes@ == nodes@,
{
    let f = choose|f: int| #[trigger]
        last_with_id(mesh.elements@, face.id, f) && perimeters[f] is Some && face.nodes@ == perimeters[f]->0@;
    last_is_unique(mesh.elements@, face.id, e, f);
}

/// Supports stay close exactly when no distance is above the limit.
pub proof fn close_supports_have_no_far_node(distances: Seq<Vec<Scalar>>, limit: Scalar, i: int, k: int)
    requires
        0 <= i < distances.len(),
        0 <= k < distances[i]@.len(),
    ensures
        !distances[i]@[k].le(limit) ==> !all_within(distances, limit),
        all_within(distances, limit) ==> distances[i]@[k].le(limit),
{
}

/// A record tells of its group.
pub proof fn records_tell_of_their_group(records: Seq<RegionSplit>, groups: Seq<RegionGroup>, k: int)
    requires
        records_match(records, groups),
        0 <= k < groups.len(),
    ensures
        records.len() == groups.len(),
        records[k].patch == groups[k].patch && records[k].stiffness == groups[k].stiffness,
        records[k].source_elements@ == groups[k].elements@,
        records[k].parts@.len() == groups[k].parts@.len(),
{
    assert(views(records[k].parts@) == views(groups[k].parts@));
    assert(views(records[k].parts@).len() == records[k].parts@.len());
}

} // verus!
