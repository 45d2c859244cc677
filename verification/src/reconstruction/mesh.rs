//! Conforming mesh probe for a completely assembled geometric fragment. It does
//! not repair geometry, invent connections, or transfer loads or releases.
use vstd::prelude::*;
use crate::edges::{edges_ascend, Edge};
use crate::input::Point;
use crate::ordering::{append_ids, ascending_determined, copy_ids, lists_distinct, unique};
use crate::reconstruction::assembly;
use crate::reconstruction::mesh::chains::ChainNode;
use crate::reconstruction::mesh::constraints::find_near;
use crate::reconstruction::mesh::faces::{conforming, constrained_sides, degenerate, face_reasons, find_constrained_sides, is_conforming, long_enough, reasons_against, Face, FaceLimits, FaceMeasure};
use crate::reconstruction::recognize::SourceSpan;
use crate::reconstruction::Surface;
use crate::registry::Registry;
use crate::scalar::{is_positive, positive, Scalar, INFINITY_BITS};
use crate::text::{decimal, with_number};

pub use crate::reconstruction::mesh::constraints::{EndpointBinding, EndpointRole};
pub use crate::reconstruction::mesh::faces::QualityReason;

pub mod chains;
pub mod constraints;
pub mod domain;
pub mod faces;
pub mod surface;

verus! {

/// 30.0
pub const GREATEST_MINIMUM_ANGLE: u64 = 0x403e_0000_0000_0000;

/// 180.0
pub const HALF_TURN: u64 = 0x4066_8000_0000_0000;

#[derive(Debug, Clone, Copy, PartialEq, Eq, Structural)]
pub struct Policy {
    pub boundary_spacing: Scalar,
    pub maximum_area: Scalar,
    pub minimum_angle_degrees: Scalar,
    pub maximum_added_vertices_per_surface: usize,
}

impl Policy {
    pub open spec fn usable(self) -> bool {
        &&& positive(self.boundary_spacing)
        &&& positive(self.maximum_area)
        &&& positive(self.minimum_angle_degrees)
        &&& self.minimum_angle_degrees.le(Scalar { bits: GREATEST_MINIMUM_ANGLE })
        &&& self.maximum_added_vertices_per_surface > 0
    }

    pub fn is_usable(&self) -> (r: bool)
        ensures
            r == self.usable(),
    {
        is_positive(&self.boundary_spacing) && is_positive(&self.maximum_area) && is_positive(
            &self.minimum_angle_degrees,
        ) && self.minimum_angle_degrees.at_most(&Scalar { bits: GREATEST_MINIMUM_ANGLE })
            && self.maximum_added_vertices_per_surface > 0
    }
}

#[derive(Debug, Clone, Copy, PartialEq, Eq)]
pub struct Triangle {
    pub vertices: [usize; 3],
    pub surface: usize,
    pub stiffness: u32,
}

#[derive(Debug, Clone, Copy, PartialEq, Eq)]
pub struct Bar {
    pub vertices: [usize; 2],
    pub axis: usize,
    pub source_element: u32,
    pub stiffness: u32,
}

#[derive(Debug)]
pub struct QualityDiagnostic {
    pub surface: usize,
    pub source_elements: Vec<u32>,
    pub vertices: [usize; 3],
    pub source_nodes: [Option<u32>; 3],
    pub constrained_edges: Vec<Edge>,
    pub area: Scalar,
    pub minimum_angle_degrees: Scalar,
    pub edge_ratio: Scalar,
    pub reasons: Vec<QualityReason>,
}

#[derive(Debug)]
pub struct SurfaceBuildDiagnostic {
    pub surface: usize,
    pub source_elements: Vec<u32>,
    pub reason: String,
}

#[derive(Debug)]
pub struct Report {
    pub policy: Policy,
    pub vertices: Vec<Point>,
    pub triangles: Vec<Triangle>,
    pub bars: Vec<Bar>,
    /// Region provenance, not a claim that each new triangle is one old element.
    pub surface_source_elements: Vec<Vec<u32>>,
    pub minimum_angle_degrees: Scalar,
    pub maximum_triangle_area: Scalar,
    /// Greatest ratio between the longest and the shortest edge of an emitted
    /// triangle that is not degenerate. It is diagnostic only.
    pub maximum_edge_ratio: Scalar,
    pub topology_valid: bool,
    pub quality_passed: bool,
    pub blockers: Vec<String>,
    pub quality_diagnostics: Vec<QualityDiagnostic>,
    pub constraint_synchronization: constraints::Report,
    /// Surface-level failures that prevented a partial mesh from being emitted.
    pub mesh_surface_errors: Vec<SurfaceBuildDiagnostic>,
    /// Whether every source surface and axis is represented in this report.
    pub source_coverage_complete: bool,
    /// Source elements withheld because their surface assembly is unresolved.
    pub unresolved_surface_source_elements: Vec<u32>,
    /// Source elements withheld because their axis assembly is unresolved.
    pub unresolved_axis_source_elements: Vec<u32>,
    /// Handoff gate for an external mesher: the assembled trial geometry is
    /// usable. The local angle and area profile is not applied to it.
    pub external_mesher_ready: bool,
    pub external_mesher_blockers: Vec<String>,
    pub export_ready: bool,
}

/// What texts say.
pub open spec fn texts(list: Seq<String>) -> Seq<Seq<char>> {
    Seq::new(list.len(), |k: int| list[k]@)
}

pub open spec fn with_text(list: Seq<Seq<char>>, holds: bool, text: Seq<char>) -> Seq<Seq<char>> {
    if holds {
        list.push(text)
    } else {
        list
    }
}

fn push_text(list: &mut Vec<String>, text: String)
    ensures
        texts(final(list)@) == texts(old(list)@).push(text@),
{
    let ghost before = list@;
    list.push(text);
    assert(texts(list@) =~= texts(before).push(text@));
}

/// Some triangle has no proper shape at all.
pub open spec fn malformed(diagnostic: QualityDiagnostic) -> bool {
    diagnostic.reasons@.contains(QualityReason::DegenerateOrInverted) || diagnostic.reasons@.contains(
        QualityReason::ShortEdge,
    )
}

pub open spec fn some_malformed(diagnostics: Seq<QualityDiagnostic>) -> bool {
    exists|d: int| 0 <= d < diagnostics.len() && malformed(#[trigger] diagnostics[d])
}

fn is_malformed(diagnostic: &QualityDiagnostic) -> (r: bool)
    ensures
        r == malformed(*diagnostic),
{
    let mut k: usize = 0;
    while k < diagnostic.reasons.len()
        invariant
            k <= diagnostic.reasons.len(),
            forall|m: int|
                0 <= m < k ==> diagnostic.reasons@[m] != QualityReason::DegenerateOrInverted
                    && diagnostic.reasons@[m] != QualityReason::ShortEdge,
        decreases diagnostic.reasons.len() - k,
    {
        if diagnostic.reasons[k] == QualityReason::DegenerateOrInverted || diagnostic.reasons[k]
            == QualityReason::ShortEdge {
            assert(diagnostic.reasons@.contains(diagnostic.reasons@[k as int]));
            return true;
        }
        k += 1;
    }
    false
}

pub open spec fn handoff_blockers(
    topology_valid: bool,
    triangles: Seq<Triangle>,
    diagnostics: Seq<QualityDiagnostic>,
    surfaces_covered: bool,
    axes_covered: bool,
) -> Seq<Seq<char>> {
    let a = with_text(Seq::empty(), triangles.len() == 0, "empty_trial_mesh"@);
    let b = with_text(a, !topology_valid, "invalid_trial_topology"@);
    let c = with_text(b, some_malformed(diagnostics), "degenerate_or_short_trial_geometry"@);
    let d = with_text(c, !surfaces_covered, "unresolved_surface_assembly"@);
    with_text(d, !axes_covered, "unresolved_axis_assembly"@)
}

/// What stands against handing a mesh to an external mesher.
pub fn compute_external_mesher_blockers(
    topology_valid: bool,
    triangles: &Vec<Triangle>,
    diagnostics: &Vec<QualityDiagnostic>,
    surface_coverage_complete: bool,
    axis_coverage_complete: bool,
    unresolved_surface_source_elements: &Vec<u32>,
    unresolved_axis_source_elements: &Vec<u32>,
) -> (r: Vec<String>)
    ensures
        texts(r@) == handoff_blockers(
            topology_valid,
            triangles@,
            diagnostics@,
            surface_coverage_complete && unresolved_surface_source_elements@.len() == 0,
            axis_coverage_complete && unresolved_axis_source_elements@.len() == 0,
        ),
{
    let mut r: Vec<String> = Vec::new();
    assert(texts(r@) =~= Seq::<Seq<char>>::empty());
    if triangles.len() == 0 {
        push_text(&mut r, "empty_trial_mesh".to_string());
    }
    if !topology_valid {
        push_text(&mut r, "invalid_trial_topology".to_string());
    }
    let mut bad: bool = false;
    let mut k: usize = 0;
    while k < diagnostics.len()
        invariant
            k <= diagnostics.len(),
            bad ==> some_malformed(diagnostics@),
            !bad ==> forall|d: int| 0 <= d < k ==> !malformed(#[trigger] diagnostics@[d]),
        decreases diagnostics.len() - k,
    {
        if is_malformed(&diagnostics[k]) {
            assert(malformed(diagnostics@[k as int]));
            bad = true;
        }
        k += 1;
    }
    if bad {
        push_text(&mut r, "degenerate_or_short_trial_geometry".to_string());
    }
    if !surface_coverage_complete || unresolved_surface_source_elements.len() > 0 {
        push_text(&mut r, "unresolved_surface_assembly".to_string());
    }
    if !axis_coverage_complete || unresolved_axis_source_elements.len() > 0 {
        push_text(&mut r, "unresolved_axis_assembly".to_string());
    }
    r
}

/// The lesser of two numbers; one that is none does not count.
pub open spec fn lesser(a: Scalar, b: Scalar) -> Scalar {
    if b.lt(a) || a.nan() {
        b
    } else {
        a
    }
}

pub fn lesser_of(a: &Scalar, b: &Scalar) -> (r: Scalar)
    ensures
        r == lesser(*a, *b),
{
    if b.less(a) || a.is_nan() {
        *b
    } else {
        *a
    }
}

/// The greater of two numbers; one that is none does not count.
pub open spec fn greater(a: Scalar, b: Scalar) -> Scalar {
    if a.lt(b) || a.nan() {
        b
    } else {
        a
    }
}

pub fn greater_of(a: &Scalar, b: &Scalar) -> (r: Scalar)
    ensures
        r == greater(*a, *b),
{
    if a.less(b) || a.is_nan() {
        *b
    } else {
        *a
    }
}

pub open spec fn surface_issue_elements(issues: Seq<assembly::Issue>, upto: int) -> Seq<u32>
    decreases upto,
{
    if upto <= 0 {
        Seq::empty()
    } else {
        surface_issue_elements(issues, upto - 1) + issues[upto - 1].source_elements@
    }
}

pub open spec fn axis_issue_elements(issues: Seq<assembly::bars::Issue>, upto: int) -> Seq<u32>
    decreases upto,
{
    if upto <= 0 {
        Seq::empty()
    } else {
        axis_issue_elements(issues, upto - 1) + issues[upto - 1].source_elements@
    }
}

pub open spec fn surfaces_covered(source: assembly::Report) -> bool {
    source.all_surface_patches_built && source.issues@.len() == 0
}

pub open spec fn axes_covered(source: assembly::Report) -> bool {
    source.axis_assembly.all_axes_built && source.axis_assembly.issues@.len() == 0
}

/// What a mesh has so far.
#[derive(Debug)]
pub struct MeshBuild {
    /// Surfaces that cannot be meshed are reported instead of refused.
    pub allow_unresolved: bool,
    pub triangles: Vec<Triangle>,
    pub blockers: Vec<String>,
    pub topology_valid: bool,
    pub minimum_angle: Scalar,
    pub maximum_area: Scalar,
    pub maximum_edge_ratio: Scalar,
    pub quality_diagnostics: Vec<QualityDiagnostic>,
    pub surface_errors: Vec<SurfaceBuildDiagnostic>,
    pub surface_coverage_complete: bool,
    pub axis_coverage_complete: bool,
    pub unresolved_surface_source_elements: Vec<u32>,
    pub unresolved_axis_source_elements: Vec<u32>,
}

pub open spec fn start_error(source: assembly::Report, policy: Policy, allow_unresolved: bool) -> Option<Seq<char>> {
    if !(surfaces_covered(source) && axes_covered(source)) && !allow_unresolved {
        Some("mesh probe requires a completely assembled fragment"@)
    } else if !policy.usable() {
        Some("invalid mesh policy"@)
    } else {
        None
    }
}

/// Nothing is meshed yet; what the assembly left open is on record.
pub open spec fn started(build: MeshBuild, source: assembly::Report, allow_unresolved: bool) -> bool {
    &&& build.allow_unresolved == allow_unresolved
    &&& build.triangles@.len() == 0
    &&& texts(build.blockers@) == with_text(
        with_text(Seq::empty(), !surfaces_covered(source), "unresolved_surface_assembly"@),
        !axes_covered(source),
        "unresolved_axis_assembly"@,
    )
    &&& build.topology_valid
    &&& build.minimum_angle == Scalar { bits: HALF_TURN }
    &&& build.maximum_area == Scalar::spec_zero()
    &&& build.maximum_edge_ratio == Scalar::spec_zero()
    &&& build.quality_diagnostics@.len() == 0
    &&& build.surface_errors@.len() == 0
    &&& build.surface_coverage_complete == surfaces_covered(source)
    &&& build.axis_coverage_complete == axes_covered(source)
    &&& lists_distinct(
        build.unresolved_surface_source_elements@,
        surface_issue_elements(source.issues@, source.issues@.len() as int),
    )
    &&& lists_distinct(
        build.unresolved_axis_source_elements@,
        axis_issue_elements(source.axis_assembly.issues@, source.axis_assembly.issues@.len() as int),
    )
}

pub open spec fn face_texts(surface: usize, measure: FaceMeasure, limits: FaceLimits, before: Seq<Seq<char>>) -> Seq<
    Seq<char>,
> {
    with_text(
        with_text(
            before,
            degenerate(measure, limits),
            "degenerate_or_inverted_triangle: surface="@ + decimal(surface as nat),
        ),
        !long_enough(measure, limits),
        "short_triangle_edge: surface="@ + decimal(surface as nat),
    )
}

pub open spec fn least_angle(start: Scalar, angles: [Scalar; 3]) -> Scalar {
    lesser(lesser(lesser(start, angles[0]), angles[1]), angles[2])
}

fn least_angle_of(start: &Scalar, angles: &[Scalar; 3]) -> (r: Scalar)
    ensures
        r == least_angle(*start, *angles),
{
    let first = lesser_of(start, &angles[0]);
    let second = lesser_of(&first, &angles[1]);
    lesser_of(&second, &angles[2])
}

pub open spec fn source_node(nodes: Seq<u32>, vertex: usize) -> Option<u32> {
    if vertex < nodes.len() {
        Some(nodes[vertex as int])
    } else {
        None
    }
}

fn source_node_of(nodes: &Vec<u32>, vertex: usize) -> (r: Option<u32>)
    ensures
        r == source_node(nodes@, vertex),
{
    if vertex < nodes.len() {
        Some(nodes[vertex])
    } else {
        None
    }
}

/// What is said of a triangle that falls short.
pub open spec fn describes(
    diagnostic: QualityDiagnostic,
    surface: usize,
    elements: Seq<u32>,
    face: Face,
    measure: FaceMeasure,
    limits: FaceLimits,
    constraints: Seq<Edge>,
    nodes: Seq<u32>,
) -> bool {
    &&& diagnostic.surface == surface
    &&& diagnostic.source_elements@ == elements
    &&& diagnostic.vertices == face
    &&& diagnostic.source_nodes[0] == source_node(nodes, face[0])
    &&& diagnostic.source_nodes[1] == source_node(nodes, face[1])
    &&& diagnostic.source_nodes[2] == source_node(nodes, face[2])
    &&& diagnostic.constrained_edges@ == constrained_sides(face, constraints, 3)
    &&& diagnostic.area == measure.area
    &&& diagnostic.minimum_angle_degrees == least_angle(Scalar { bits: HALF_TURN }, measure.angles)
    &&& diagnostic.edge_ratio == if long_enough(measure, limits) {
        measure.ratio
    } else {
        Scalar { bits: INFINITY_BITS }
    }
    &&& diagnostic.reasons@ == reasons_against(measure, limits)
}

/// Everything that a surface cannot change stays as it was.
pub open spec fn carried(before: MeshBuild, after: MeshBuild) -> bool {
    &&& after.allow_unresolved == before.allow_unresolved
    &&& after.axis_coverage_complete == before.axis_coverage_complete
    &&& after.unresolved_axis_source_elements == before.unresolved_axis_source_elements
}

pub open spec fn qualities_kept(before: MeshBuild, after: MeshBuild) -> bool {
    &&& after.triangles == before.triangles
    &&& after.minimum_angle == before.minimum_angle
    &&& after.maximum_area == before.maximum_area
    &&& after.maximum_edge_ratio == before.maximum_edge_ratio
    &&& after.quality_diagnostics == before.quality_diagnostics
}

pub open spec fn coverage_kept(before: MeshBuild, after: MeshBuild) -> bool {
    &&& after.surface_errors == before.surface_errors
    &&& after.surface_coverage_complete == before.surface_coverage_complete
    &&& after.unresolved_surface_source_elements == before.unresolved_surface_source_elements
}

/// A surface is left out of a mesh that allows for gaps.
pub open spec fn surface_left_out(
    before: MeshBuild,
    after: MeshBuild,
    surface: usize,
    elements: Seq<u32>,
    reason: Seq<char>,
) -> bool {
    &&& before.allow_unresolved
    &&& carried(before, after)
    &&& qualities_kept(before, after)
    &&& !after.surface_coverage_complete
    &&& !after.topology_valid
    &&& texts(after.blockers@) == texts(before.blockers@).push(
        "mesh_surface_unresolved: surface="@ + decimal(surface as nat),
    )
    &&& after.unresolved_surface_source_elements@ == before.unresolved_surface_source_elements@ + elements
    &&& after.surface_errors@.len() == before.surface_errors@.len() + 1
    &&& after.surface_errors@.drop_last() == before.surface_errors@
    &&& after.surface_errors@.last().surface == surface
    &&& after.surface_errors@.last().source_elements@ == elements
    &&& after.surface_errors@.last().reason@ == reason
}

pub open spec fn limit_noted(before: MeshBuild, after: MeshBuild, surface: usize) -> bool {
    &&& carried(before, after)
    &&& qualities_kept(before, after)
    &&& coverage_kept(before, after)
    &&& after.topology_valid == before.topology_valid
    &&& texts(after.blockers@) == texts(before.blockers@).push(
        "refinement_limit: surface="@ + decimal(surface as nat),
    )
}

/// A triangle is taken into the mesh.
pub open spec fn face_added(
    before: MeshBuild,
    after: MeshBuild,
    surface: usize,
    elements: Seq<u32>,
    stiffness: u32,
    face: Face,
    measure: FaceMeasure,
    limits: FaceLimits,
    constraints: Seq<Edge>,
    nodes: Seq<u32>,
) -> bool {
    &&& carried(before, after)
    &&& coverage_kept(before, after)
    &&& after.topology_valid == before.topology_valid
    &&& after.triangles@ == before.triangles@.push((Triangle { vertices: face, surface, stiffness }))
    &&& texts(after.blockers@) == face_texts(surface, measure, limits, texts(before.blockers@))
    &&& after.minimum_angle == least_angle(
        if degenerate(measure, limits) {
            Scalar::spec_zero()
        } else {
            before.minimum_angle
        },
        measure.angles,
    )
    &&& after.maximum_area == greater(before.maximum_area, measure.area)
    &&& after.maximum_edge_ratio == if long_enough(measure, limits) {
        greater(before.maximum_edge_ratio, measure.ratio)
    } else {
        before.maximum_edge_ratio
    }
    &&& if reasons_against(measure, limits).len() == 0 {
        after.quality_diagnostics == before.quality_diagnostics
    } else {
        &&& after.quality_diagnostics@.len() == before.quality_diagnostics@.len() + 1
        &&& after.quality_diagnostics@.drop_last() == before.quality_diagnostics@
        &&& describes(after.quality_diagnostics@.last(), surface, elements, face, measure, limits, constraints, nodes)
    }
}

pub open spec fn surface_checked(before: MeshBuild, after: MeshBuild, surface: usize, failed: bool) -> bool {
    &&& carried(before, after)
    &&& qualities_kept(before, after)
    &&& coverage_kept(before, after)
    &&& after.topology_valid == (before.topology_valid && !failed)
    &&& texts(after.blockers@) == with_text(
        texts(before.blockers@),
        failed,
        "coverage_or_constraint_failure: surface="@ + decimal(surface as nat),
    )
}

/// The report of a mesh.
pub open spec fn concluded(
    build: MeshBuild,
    r: Report,
    policy: Policy,
    bounds: QualityBounds,
    vertices: Seq<Point>,
    bars: Seq<Bar>,
    surfaces: Seq<Surface>,
    constraint_synchronization: constraints::Report,
) -> bool {
    &&& r.policy == policy
    &&& r.vertices@ == vertices
    &&& r.triangles == build.triangles
    &&& r.bars@ == bars
    &&& r.surface_source_elements@.len() == surfaces.len()
    &&& forall|s: int|
        0 <= s < surfaces.len() ==> (#[trigger] r.surface_source_elements@[s])@ == surfaces[s].source_elements@
    &&& r.minimum_angle_degrees == build.minimum_angle
    &&& r.maximum_triangle_area == build.maximum_area
    &&& r.maximum_edge_ratio == build.maximum_edge_ratio
    &&& r.topology_valid == build.topology_valid
    &&& r.quality_passed == quality_met(build, policy, bounds)
    &&& texts(r.blockers@) == with_text(
        with_text(
            texts(build.blockers@),
            bounds.padded_angle.lt(policy.minimum_angle_degrees),
            "minimum_angle_not_met"@,
        ),
        bounds.maximum_area.lt(build.maximum_area),
        "maximum_area_not_met"@,
    )
    &&& r.quality_diagnostics == build.quality_diagnostics
    &&& r.constraint_synchronization == constraint_synchronization
    &&& r.mesh_surface_errors == build.surface_errors
    &&& r.source_coverage_complete == (build.surface_coverage_complete && build.axis_coverage_complete)
    &&& lists_distinct(r.unresolved_surface_source_elements@, build.unresolved_surface_source_elements@)
    &&& r.unresolved_axis_source_elements == build.unresolved_axis_source_elements
    &&& texts(r.external_mesher_blockers@) == handoff_blockers(
        build.topology_valid,
        build.triangles@,
        build.quality_diagnostics@,
        build.surface_coverage_complete && r.unresolved_surface_source_elements@.len() == 0,
        build.axis_coverage_complete && build.unresolved_axis_source_elements@.len() == 0,
    )
    &&& r.external_mesher_ready == (r.external_mesher_blockers@.len() == 0)
    &&& !r.export_ready
}

impl MeshBuild {
    /// Begins a mesh. A fragment must be complete unless gaps are allowed.
    pub fn start(source: &assembly::Report, policy: &Policy, allow_unresolved: bool) -> (r: Result<
        MeshBuild,
        &'static str,
    >)
        ensures
            match r {
                Ok(build) => start_error(*source, *policy, allow_unresolved) is None && started(
                    build,
                    *source,
                    allow_unresolved,
                ),
                Err(error) => start_error(*source, *policy, allow_unresolved) == Some(error@),
            },
    {
        let surfaces: bool = source.all_surface_patches_built && source.issues.len() == 0;
        let axes: bool = source.axis_assembly.all_axes_built && source.axis_assembly.issues.len() == 0;
        if !(surfaces && axes) && !allow_unresolved {
            return Err("mesh probe requires a completely assembled fragment");
        }
        if !policy.is_usable() {
            return Err("invalid mesh policy");
        }
        let mut elements: Vec<u32> = Vec::new();
        let mut k: usize = 0;
        while k < source.issues.len()
            invariant
                k <= source.issues.len(),
                elements@ == surface_issue_elements(source.issues@, k as int),
            decreases source.issues.len() - k,
        {
            append_ids(&mut elements, &source.issues[k].source_elements);
            k += 1;
        }
        let mut others: Vec<u32> = Vec::new();
        let mut k: usize = 0;
        while k < source.axis_assembly.issues.len()
            invariant
                k <= source.axis_assembly.issues.len(),
                others@ == axis_issue_elements(source.axis_assembly.issues@, k as int),
            decreases source.axis_assembly.issues.len() - k,
        {
            append_ids(&mut others, &source.axis_assembly.issues[k].source_elements);
            k += 1;
        }
        let mut blockers: Vec<String> = Vec::new();
        assert(texts(blockers@) =~= Seq::<Seq<char>>::empty());
        if !surfaces {
            push_text(&mut blockers, "unresolved_surface_assembly".to_string());
        }
        if !axes {
            push_text(&mut blockers, "unresolved_axis_assembly".to_string());
        }
        Ok(
            MeshBuild {
                allow_unresolved,
                triangles: Vec::new(),
                blockers,
                topology_valid: true,
                minimum_angle: Scalar { bits: HALF_TURN },
                maximum_area: Scalar::zero(),
                maximum_edge_ratio: Scalar::zero(),
                quality_diagnostics: Vec::new(),
                surface_errors: Vec::new(),
                surface_coverage_complete: surfaces,
                axis_coverage_complete: axes,
                unresolved_surface_source_elements: unique(elements),
                unresolved_axis_source_elements: unique(others),
            },
        )
    }

    /// Leaves a surface out of the mesh, or refuses the mesh with `error`.
    pub fn refuse_surface(
        &mut self,
        surface: usize,
        source_elements: &Vec<u32>,
        error: &'static str,
        reason: String,
    ) -> (r: Result<(), &'static str>)
        ensures
            match r {
                Ok(_) => surface_left_out(*old(self), *final(self), surface, source_elements@, reason@),
                Err(given) => !old(self).allow_unresolved && given@ == error@ && *final(self) == *old(self),
            },
    {
        if !self.allow_unresolved {
            return Err(error);
        }
        self.surface_coverage_complete = false;
        self.topology_valid = false;
        push_text(&mut self.blockers, with_number("mesh_surface_unresolved: surface=", surface));
        append_ids(&mut self.unresolved_surface_source_elements, source_elements);
        let diagnostic = SurfaceBuildDiagnostic {
            surface,
            source_elements: copy_ids(source_elements),
            reason,
        };
        self.surface_errors.push(diagnostic);
        assert(self.surface_errors@.drop_last() =~= old(self).surface_errors@);
        Ok(())
    }

    /// Notes that a surface was not refined as far as asked for.
    pub fn note_limit(&mut self, surface: usize)
        ensures
            limit_noted(*old(self), *final(self), surface),
    {
        push_text(&mut self.blockers, with_number("refinement_limit: surface=", surface));
    }

    /// Takes a triangle into the mesh, with what is wrong with it.
    pub fn add_face(
        &mut self,
        surface: usize,
        source_elements: &Vec<u32>,
        stiffness: u32,
        face: Face,
        measure: &FaceMeasure,
        limits: &FaceLimits,
        constraints: &Vec<Edge>,
        vertex_source_nodes: &Vec<u32>,
    )
        requires
            edges_ascend(constraints@),
        ensures
            face_added(
                *old(self),
                *final(self),
                surface,
                source_elements@,
                stiffness,
                face,
                *measure,
                *limits,
                constraints@,
                vertex_source_nodes@,
            ),
    {
        let reasons = face_reasons(measure, limits);
        let bad: bool = !measure.area.is_finite() || measure.area.at_most(&limits.degenerate_area)
            || measure.facing.at_most(&Scalar::zero());
        let long: bool = measure.shortest.is_finite() && limits.precision.less(&measure.shortest);
        if bad {
            self.minimum_angle = Scalar::zero();
            push_text(&mut self.blockers, with_number("degenerate_or_inverted_triangle: surface=", surface));
        }
        if long {
            self.maximum_edge_ratio = greater_of(&self.maximum_edge_ratio, &measure.ratio);
        } else {
            push_text(&mut self.blockers, with_number("short_triangle_edge: surface=", surface));
        }
        self.maximum_area = greater_of(&self.maximum_area, &measure.area);
        self.minimum_angle = least_angle_of(&self.minimum_angle, &measure.angles);
        if reasons.len() > 0 {
            let diagnostic = QualityDiagnostic {
                surface,
                source_elements: copy_ids(source_elements),
                vertices: face,
                source_nodes: [
                    source_node_of(vertex_source_nodes, face[0]),
                    source_node_of(vertex_source_nodes, face[1]),
                    source_node_of(vertex_source_nodes, face[2]),
                ],
                constrained_edges: find_constrained_sides(&face, constraints),
                area: measure.area,
                minimum_angle_degrees: least_angle_of(&Scalar { bits: HALF_TURN }, &measure.angles),
                edge_ratio: if long {
                    measure.ratio
                } else {
                    Scalar { bits: INFINITY_BITS }
                },
                reasons,
            };
            self.quality_diagnostics.push(diagnostic);
            assert(self.quality_diagnostics@.drop_last() =~= old(self).quality_diagnostics@);
        }
        self.triangles.push(Triangle { vertices: face, surface, stiffness });
    }

    /// Holds the faces of a surface against its constraints and its area.
    pub fn check_surface(
        &mut self,
        surface: usize,
        faces: &Vec<Face>,
        constraints: &Vec<Edge>,
        boundary: &Vec<Edge>,
        nodes: &Vec<usize>,
        area_deviation: &Scalar,
        area_allowance: &Scalar,
    )
        requires
            3 * faces@.len() <= usize::MAX,
            edges_ascend(boundary@),
        ensures
            surface_checked(
                *old(self),
                *final(self),
                surface,
                area_allowance.lt(*area_deviation) || !conforming(faces@, constraints@, boundary@, nodes@),
            ),
    {
        if area_allowance.less(area_deviation) || !is_conforming(faces, constraints, boundary, nodes) {
            self.topology_valid = false;
            push_text(&mut self.blockers, with_number("coverage_or_constraint_failure: surface=", surface));
        }
    }
}

/// The size of a hole and what the numbers resolve there.
#[derive(Debug, Clone, Copy)]
pub struct HoleSize {
    pub area: Scalar,
    pub resolution: Scalar,
}

pub open spec fn unresolved_hole(holes: Seq<HoleSize>, k: int) -> bool {
    &&& 0 <= k < holes.len()
    &&& holes[k].area.le(holes[k].resolution)
    &&& forall|m: int| 0 <= m < k ==> !(#[trigger] holes[m]).area.le(holes[m].resolution)
}

pub open spec fn holes_resolved(holes: Seq<HoleSize>) -> bool {
    forall|m: int| 0 <= m < holes.len() ==> !(#[trigger] holes[m]).area.le(holes[m].resolution)
}

/// The first hole that numbers cannot resolve. It is neither filled nor meshed.
pub fn find_unresolved_hole(holes: &Vec<HoleSize>) -> (r: Option<usize>)
    ensures
        match r {
            Some(k) => unresolved_hole(holes@, k as int),
            None => holes_resolved(holes@),
        },
{
    let mut k: usize = 0;
    while k < holes.len()
        invariant
            k <= holes.len(),
            forall|m: int| 0 <= m < k ==> !(#[trigger] holes@[m]).area.le(holes@[m].resolution),
        decreases holes.len() - k,
    {
        if holes[k].area.at_most(&holes[k].resolution) {
            return Some(k);
        }
        k += 1;
    }
    None
}

/// Where a vertex of the mesh lies on an axis.
#[derive(Debug)]
pub struct AxisPlace {
    pub t: Scalar,
    /// Ends of the contact, widened by the tolerance.
    pub low: Scalar,
    pub high: Scalar,
    /// Distance to each node of the axis.
    pub gaps: Vec<Scalar>,
    pub tolerance: Scalar,
}

pub open spec fn outside(place: AxisPlace) -> bool {
    place.t.lt(place.low) || place.high.lt(place.t)
}

/// What a vertex on an axis does to the axis and to the names of vertices.
pub open spec fn promoted(
    before: Seq<ChainNode>,
    after: Seq<ChainNode>,
    names_before: Map<u64, usize>,
    names_after: Map<u64, usize>,
    vertex: usize,
    place: AxisPlace,
) -> bool {
    if outside(place) {
        after == before && names_after == names_before
    } else if constraints::some_near(place.gaps@, place.tolerance) {
        &&& after == before
        &&& exists|k: int| #[trigger]
            constraints::first_near(place.gaps@, place.tolerance, k) && names_after == if before[k].vertex
                != vertex {
                names_before.insert(vertex as u64, before[k].vertex)
            } else {
                names_before
            }
    } else {
        after == before.push((ChainNode { t: place.t, vertex })) && names_after == names_before
    }
}

/// Refinement may split a constrained bar edge. Such a vertex becomes a node of
/// the axis, or takes the name of the node that is already there.
pub fn promote_vertex(chain: &mut Vec<ChainNode>, names: &mut Registry, vertex: usize, place: &AxisPlace)
    requires
        place.gaps@.len() == old(chain)@.len(),
    ensures
        promoted(old(chain)@, final(chain)@, old(names)@, final(names)@, vertex, *place),
{
    if place.t.less(&place.low) || place.high.less(&place.t) {
        return;
    }
    match find_near(&place.gaps, &place.tolerance) {
        Some(k) => {
            let canonical: usize = chain[k].vertex;
            if canonical != vertex {
                names.insert(vertex as u64, canonical);
            }
            assert(constraints::first_near(place.gaps@, place.tolerance, k as int));
        },
        None => {
            chain.push(ChainNode { t: place.t, vertex });
        },
    }
}

/// The interval of a span with room for rounding.
#[derive(Debug, Clone, Copy)]
pub struct SpanBand {
    pub low: Scalar,
    pub high: Scalar,
}

pub open spec fn span_holds(span: SourceSpan, t: Scalar) -> bool {
    span.start_t.le(t) && t.lt(span.end_t)
}

pub open spec fn only_span(spans: Seq<SourceSpan>, t: Scalar, k: int) -> bool {
    &&& 0 <= k < spans.len()
    &&& span_holds(spans[k], t)
    &&& forall|m: int| 0 <= m < spans.len() && m != k ==> !span_holds(#[trigger] spans[m], t)
}

pub open spec fn has_only_span(spans: Seq<SourceSpan>, t: Scalar) -> bool {
    exists|k: int| #[trigger] only_span(spans, t, k)
}

#[verifier::loop_isolation(false)]
fn find_span(spans: &Vec<SourceSpan>, t: &Scalar) -> (r: Option<usize>)
    ensures
        match r {
            Some(k) => only_span(spans@, *t, k as int),
            None => !has_only_span(spans@, *t),
        },
{
    let mut found: Option<usize> = None;
    let mut k: usize = 0;
    while k < spans.len()
        invariant
            k <= spans.len(),
            match found {
                Some(f) => f < k && span_holds(spans@[f as int], *t) && forall|m: int|
                    0 <= m < k && m != f ==> !span_holds(#[trigger] spans@[m], *t),
                None => forall|m: int| 0 <= m < k ==> !span_holds(#[trigger] spans@[m], *t),
            },
        decreases spans.len() - k,
    {
        if spans[k].start_t.at_most(t) && t.less(&spans[k].end_t) {
            assert(span_holds(spans@[k as int], *t));
            match found {
                Some(f) => {
                    assert forall|m: int| !#[trigger] only_span(spans@, *t, m) by {
                        if only_span(spans@, *t, m) {
                            assert(span_holds(spans@[f as int], *t));
                            assert(span_holds(spans@[k as int], *t));
                        }
                    }
                    return None;
                },
                None => {
                    found = Some(k);
                },
            }
        }
        k += 1;
    }
    match found {
        Some(f) => {
            assert(only_span(spans@, *t, f as int));
        },
        None => {
            assert forall|m: int| !#[trigger] only_span(spans@, *t, m) by {}
        },
    }
    found
}

/// Why a link of an axis is no bar.
pub open spec fn bar_fault(
    chain: Seq<ChainNode>,
    middles: Seq<Scalar>,
    spans: Seq<SourceSpan>,
    bands: Seq<SpanBand>,
    k: int,
) -> Option<Seq<char>> {
    if !has_only_span(spans, middles[k]) {
        Some("ambiguous bar property interval"@)
    } else if exists|s: int| #[trigger]
        only_span(spans, middles[k], s) && (chain[k].t.lt(bands[s].low) || bands[s].high.lt(
            chain[k + 1].t,
        )) {
        Some("bar crosses property boundary"@)
    } else {
        None
    }
}

pub open spec fn bar_at(
    bar: Bar,
    axis: usize,
    chain: Seq<ChainNode>,
    middles: Seq<Scalar>,
    spans: Seq<SourceSpan>,
    k: int,
) -> bool {
    &&& bar.axis == axis
    &&& bar.vertices@ == seq![chain[k].vertex, chain[k + 1].vertex]
    &&& exists|s: int| #[trigger]
        only_span(spans, middles[k], s) && bar.source_element == spans[s].element && bar.stiffness
            == spans[s].stiffness
}

pub open spec fn link_count(chain: Seq<ChainNode>) -> nat {
    if chain.len() == 0 {
        0
    } else {
        (chain.len() - 1) as nat
    }
}

pub open spec fn first_bar_fault(
    chain: Seq<ChainNode>,
    middles: Seq<Scalar>,
    spans: Seq<SourceSpan>,
    bands: Seq<SpanBand>,
    k: int,
) -> bool {
    &&& 0 <= k < link_count(chain)
    &&& bar_fault(chain, middles, spans, bands, k) is Some
    &&& forall|m: int| 0 <= m < k ==> #[trigger] bar_fault(chain, middles, spans, bands, m) is None
}

proof fn only_span_unique(spans: Seq<SourceSpan>, t: Scalar, a: int, b: int)
    requires
        only_span(spans, t, a),
        only_span(spans, t, b),
    ensures
        a == b,
{
    if a != b {
        assert(!span_holds(spans[b], t));
    }
}

/// The bars of an axis, one for each link of its nodes. The middle of a link must
/// lie in one property span, and the link must not leave that span.
#[verifier::loop_isolation(false)]
pub fn axis_bars(
    axis: usize,
    chain: &Vec<ChainNode>,
    middles: &Vec<Scalar>,
    spans: &Vec<SourceSpan>,
    bands: &Vec<SpanBand>,
) -> (r: Result<Vec<Bar>, &'static str>)
    requires
        middles@.len() == link_count(chain@),
        bands@.len() == spans@.len(),
    ensures
        match r {
            Ok(bars) => {
                &&& bars@.len() == link_count(chain@)
                &&& forall|k: int|
                    0 <= k < bars@.len() ==> bar_at(#[trigger] bars@[k], axis, chain@, middles@, spans@, k)
                &&& forall|k: int|
                    0 <= k < bars@.len() ==> #[trigger] bar_fault(chain@, middles@, spans@, bands@, k) is None
            },
            Err(error) => exists|k: int| #[trigger]
                first_bar_fault(chain@, middles@, spans@, bands@, k) && bar_fault(
                    chain@,
                    middles@,
                    spans@,
                    bands@,
                    k,
                ) == Some(error@),
        },
{
    let mut bars: Vec<Bar> = Vec::new();
    let mut k: usize = 0;
    while k < middles.len()
        invariant
            k <= middles.len(),
            bars@.len() == k,
            forall|m: int| 0 <= m < k ==> bar_at(#[trigger] bars@[m], axis, chain@, middles@, spans@, m),
            forall|m: int| 0 <= m < k ==> #[trigger] bar_fault(chain@, middles@, spans@, bands@, m) is None,
        decreases middles.len() - k,
    {
        match find_span(spans, &middles[k]) {
            Some(s) => {
                proof {
                    assert(has_only_span(spans@, middles@[k as int]));
                    assert forall|o: int| #[trigger] only_span(spans@, middles@[k as int], o) implies o == s by {
                        only_span_unique(spans@, middles@[k as int], o, s as int);
                    }
                }
                if chain[k].t.less(&bands[s].low) || bands[s].high.less(&chain[k + 1].t) {
                    assert(first_bar_fault(chain@, middles@, spans@, bands@, k as int));
                    return Err("bar crosses property boundary");
                }
                let bar = Bar {
                    vertices: [chain[k].vertex, chain[k + 1].vertex],
                    axis,
                    source_element: spans[s].element,
                    stiffness: spans[s].stiffness,
                };
                proof {
                    assert(bar.vertices@ =~= seq![chain@[k as int].vertex, chain@[k + 1].vertex]);
                    assert(bar_at(bar, axis, chain@, middles@, spans@, k as int));
                    assert(bar_fault(chain@, middles@, spans@, bands@, k as int) is None);
                }
                bars.push(bar);
            },
            None => {
                assert(first_bar_fault(chain@, middles@, spans@, bands@, k as int));
                return Err("ambiguous bar property interval");
            },
        }
        k += 1;
    }
    Ok(bars)
}

/// The quality bounds with room for rounding.
#[derive(Debug, Clone, Copy)]
pub struct QualityBounds {
    /// Least angle found, with room for rounding.
    pub padded_angle: Scalar,
    /// Greatest area allowed, with room for rounding.
    pub maximum_area: Scalar,
}

pub open spec fn quality_met(build: MeshBuild, policy: Policy, bounds: QualityBounds) -> bool {
    &&& build.triangles@.len() > 0
    &&& policy.minimum_angle_degrees.le(bounds.padded_angle)
    &&& build.maximum_area.le(bounds.maximum_area)
    &&& build.blockers@.len() == 0
}

fn surface_elements(surfaces: &Vec<Surface>) -> (r: Vec<Vec<u32>>)
    ensures
        r@.len() == surfaces@.len(),
        forall|s: int| 0 <= s < surfaces@.len() ==> (#[trigger] r@[s])@ == surfaces@[s].source_elements@,
{
    let mut r: Vec<Vec<u32>> = Vec::new();
    let mut s: usize = 0;
    while s < surfaces.len()
        invariant
            s <= surfaces.len(),
            r@.len() == s,
            forall|m: int| 0 <= m < s ==> (#[trigger] r@[m])@ == surfaces@[m].source_elements@,
        decreases surfaces.len() - s,
    {
        r.push(copy_ids(&surfaces[s].source_elements));
        s += 1;
    }
    r
}

/// Closes a mesh. It is never ready for export by itself.
pub fn conclude(
    build: MeshBuild,
    policy: &Policy,
    bounds: &QualityBounds,
    vertices: Vec<Point>,
    bars: Vec<Bar>,
    surfaces: &Vec<Surface>,
    constraint_synchronization: constraints::Report,
) -> (r: Report)
    ensures
        concluded(build, r, *policy, *bounds, vertices@, bars@, surfaces@, constraint_synchronization),
        r.vertices == vertices,
        r.bars == bars,
{
    let quality_passed: bool = build.triangles.len() > 0 && policy.minimum_angle_degrees.at_most(
        &bounds.padded_angle,
    ) && build.maximum_area.at_most(&bounds.maximum_area) && build.blockers.len() == 0;
    let mut blockers = build.blockers;
    if bounds.padded_angle.less(&policy.minimum_angle_degrees) {
        push_text(&mut blockers, "minimum_angle_not_met".to_string());
    }
    if bounds.maximum_area.less(&build.maximum_area) {
        push_text(&mut blockers, "maximum_area_not_met".to_string());
    }
    let unresolved = unique(build.unresolved_surface_source_elements);
    let external = compute_external_mesher_blockers(
        build.topology_valid,
        &build.triangles,
        &build.quality_diagnostics,
        build.surface_coverage_complete,
        build.axis_coverage_complete,
        &unresolved,
        &build.unresolved_axis_source_elements,
    );
    let external_mesher_ready: bool = external.len() == 0;
    Report {
        policy: *policy,
        vertices,
        triangles: build.triangles,
        bars,
        surface_source_elements: surface_elements(surfaces),
        minimum_angle_degrees: build.minimum_angle,
        maximum_triangle_area: build.maximum_area,
        maximum_edge_ratio: build.maximum_edge_ratio,
        topology_valid: build.topology_valid,
        quality_passed,
        blockers,
        quality_diagnostics: build.quality_diagnostics,
        constraint_synchronization,
        mesh_surface_errors: build.surface_errors,
        source_coverage_complete: build.surface_coverage_complete && build.axis_coverage_complete,
        unresolved_surface_source_elements: unresolved,
        unresolved_axis_source_elements: build.unresolved_axis_source_elements,
        external_mesher_ready,
        external_mesher_blockers: external,
        export_ready: false,
    }
}

/// Nothing stands against a handoff exactly where there are triangles, the
/// topology holds, every triangle has a shape, and nothing of the source is left
/// out.
pub proof fn handoff_is_whole(
    topology_valid: bool,
    triangles: Seq<Triangle>,
    diagnostics: Seq<QualityDiagnostic>,
    surfaces: bool,
    axes: bool,
)
    ensures
        (handoff_blockers(topology_valid, triangles, diagnostics, surfaces, axes).len() == 0) <==> (
        topology_valid && triangles.len() > 0 && !some_malformed(diagnostics) && surfaces && axes),
{
}

/// A surface that was left out keeps a mesh from passing.
pub proof fn left_out_surface_blocks(
    build: MeshBuild,
    policy: Policy,
    bounds: QualityBounds,
    blocker: Seq<char>,
)
    requires
        texts(build.blockers@).contains(blocker),
    ensures
        !quality_met(build, policy, bounds),
{
    assert(texts(build.blockers@).len() == build.blockers@.len());
}

/// What can happen to a mesh between its beginning and its report.
#[derive(Debug)]
pub enum MeshStep {
    LeaveOut { surface: usize, elements: Vec<u32>, reason: String },
    Limit { surface: usize },
    Add {
        surface: usize,
        elements: Vec<u32>,
        stiffness: u32,
        face: Face,
        measure: FaceMeasure,
        limits: FaceLimits,
        constraints: Vec<Edge>,
        nodes: Vec<u32>,
    },
    Check { surface: usize, failed: bool },
}

pub open spec fn stepped(before: MeshBuild, after: MeshBuild, step: MeshStep) -> bool {
    match step {
        MeshStep::LeaveOut { surface, elements, reason } => surface_left_out(before, after, surface, elements@, reason@),
        MeshStep::Limit { surface } => limit_noted(before, after, surface),
        MeshStep::Add { surface, elements, stiffness, face, measure, limits, constraints, nodes } => face_added(
            before,
            after,
            surface,
            elements@,
            stiffness,
            face,
            measure,
            limits,
            constraints@,
            nodes@,
        ),
        MeshStep::Check { surface, failed } => surface_checked(before, after, surface, failed),
    }
}

/// A mesh from its beginning, step by step.
pub open spec fn meshed(
    builds: Seq<MeshBuild>,
    steps: Seq<MeshStep>,
    source: assembly::Report,
    allow_unresolved: bool,
) -> bool {
    &&& builds.len() == steps.len() + 1
    &&& started(builds[0], source, allow_unresolved)
    &&& forall|k: int| 0 <= k < steps.len() ==> stepped(builds[k], builds[k + 1], #[trigger] steps[k])
}

pub open spec fn diagnostics_agree(a: Seq<QualityDiagnostic>, b: Seq<QualityDiagnostic>) -> bool {
    &&& a.len() == b.len()
    &&& forall|k: int| 0 <= k < a.len() ==> diagnostic_agrees(#[trigger] a[k], b[k])
}

pub open spec fn diagnostic_agrees(a: QualityDiagnostic, b: QualityDiagnostic) -> bool {
    &&& a.surface == b.surface
    &&& a.source_elements@ == b.source_elements@
    &&& a.vertices == b.vertices
    &&& a.source_nodes[0] == b.source_nodes[0]
    &&& a.source_nodes[1] == b.source_nodes[1]
    &&& a.source_nodes[2] == b.source_nodes[2]
    &&& a.constrained_edges@ == b.constrained_edges@
    &&& a.area == b.area
    &&& a.minimum_angle_degrees == b.minimum_angle_degrees
    &&& a.edge_ratio == b.edge_ratio
    &&& a.reasons@ == b.reasons@
}

/// Two meshes that differ at most in whether they allow for gaps.
pub open spec fn builds_agree(a: MeshBuild, b: MeshBuild) -> bool {
    &&& a.triangles@ == b.triangles@
    &&& texts(a.blockers@) == texts(b.blockers@)
    &&& a.topology_valid == b.topology_valid
    &&& a.minimum_angle == b.minimum_angle
    &&& a.maximum_area == b.maximum_area
    &&& a.maximum_edge_ratio == b.maximum_edge_ratio
    &&& diagnostics_agree(a.quality_diagnostics@, b.quality_diagnostics@)
    &&& a.surface_errors@.len() == 0
    &&& b.surface_errors@.len() == 0
    &&& a.surface_coverage_complete == b.surface_coverage_complete
    &&& a.axis_coverage_complete == b.axis_coverage_complete
    &&& a.unresolved_surface_source_elements@ == b.unresolved_surface_source_elements@
    &&& a.unresolved_axis_source_elements@ == b.unresolved_axis_source_elements@
}

/// Two reports that say the same.
pub open spec fn reports_agree(a: Report, b: Report) -> bool {
    &&& a.policy == b.policy
    &&& a.vertices@ == b.vertices@
    &&& a.triangles@ == b.triangles@
    &&& a.bars@ == b.bars@
    &&& a.surface_source_elements@.len() == b.surface_source_elements@.len()
    &&& forall|s: int|
        0 <= s < a.surface_source_elements@.len() ==> (#[trigger] a.surface_source_elements@[s])@
            == b.surface_source_elements@[s]@
    &&& a.minimum_angle_degrees == b.minimum_angle_degrees
    &&& a.maximum_triangle_area == b.maximum_triangle_area
    &&& a.maximum_edge_ratio == b.maximum_edge_ratio
    &&& a.topology_valid == b.topology_valid
    &&& a.quality_passed == b.quality_passed
    &&& texts(a.blockers@) == texts(b.blockers@)
    &&& diagnostics_agree(a.quality_diagnostics@, b.quality_diagnostics@)
    &&& a.constraint_synchronization == b.constraint_synchronization
    &&& a.mesh_surface_errors@.len() == 0
    &&& b.mesh_surface_errors@.len() == 0
    &&& a.source_coverage_complete == b.source_coverage_complete
    &&& a.unresolved_surface_source_elements@ == b.unresolved_surface_source_elements@
    &&& a.unresolved_axis_source_elements@ == b.unresolved_axis_source_elements@
    &&& texts(a.external_mesher_blockers@) == texts(b.external_mesher_blockers@)
    &&& a.external_mesher_ready == b.external_mesher_ready
    &&& a.export_ready == b.export_ready
}

proof fn steps_agree(a: MeshBuild, c: MeshBuild, b: MeshBuild, d: MeshBuild, step: MeshStep)
    requires
        !a.allow_unresolved,
        builds_agree(a, b),
        stepped(a, c, step),
        stepped(b, d, step),
    ensures
        !c.allow_unresolved,
        builds_agree(c, d),
{
    match step {
        MeshStep::Add { surface, elements, stiffness, face, measure, limits, constraints, nodes } => {
            let (x, y) = (c.quality_diagnostics@, d.quality_diagnostics@);
            assert(diagnostics_agree(x, y)) by {
                assert forall|k: int| 0 <= k < x.len() implies diagnostic_agrees(#[trigger] x[k], y[k]) by {
                    if k < a.quality_diagnostics@.len() {
                        if x.len() > a.quality_diagnostics@.len() {
                            assert(x.drop_last()[k] == x[k]);
                            assert(y.drop_last()[k] == y[k]);
                        }
                        assert(diagnostic_agrees(a.quality_diagnostics@[k], b.quality_diagnostics@[k]));
                    }
                }
            }
        },
        _ => {},
    }
}

proof fn runs_agree(strict: Seq<MeshBuild>, partial: Seq<MeshBuild>, steps: Seq<MeshStep>, source: assembly::Report, k: int)
    requires
        meshed(strict, steps, source, false),
        meshed(partial, steps, source, true),
        0 <= k <= steps.len(),
    ensures
        !strict[k].allow_unresolved,
        builds_agree(strict[k], partial[k]),
    decreases k,
{
    if k == 0 {
        ascending_determined(
            strict[0].unresolved_surface_source_elements@,
            partial[0].unresolved_surface_source_elements@,
        );
        ascending_determined(strict[0].unresolved_axis_source_elements@, partial[0].unresolved_axis_source_elements@);
        assert(strict[0].triangles@ =~= partial[0].triangles@);
    } else {
        runs_agree(strict, partial, steps, source, k - 1);
        assert(stepped(strict[k - 1], strict[k - 1 + 1], steps[k - 1]));
        assert(stepped(partial[k - 1], partial[k - 1 + 1], steps[k - 1]));
        steps_agree(strict[k - 1], strict[k], partial[k - 1], partial[k], steps[k - 1]);
    }
}

/// Where a mesh without gaps can be built, allowing for gaps changes nothing: it
/// begins as well, and from the same measurements comes the same report.
pub proof fn strict_and_partial_meshes_agree(
    source: assembly::Report,
    policy: Policy,
    steps: Seq<MeshStep>,
    strict: Seq<MeshBuild>,
    partial: Seq<MeshBuild>,
    bounds: QualityBounds,
    vertices: Seq<Point>,
    bars: Seq<Bar>,
    surfaces: Seq<Surface>,
    constraint_synchronization: constraints::Report,
    first: Report,
    second: Report,
)
    requires
        start_error(source, policy, false) is None,
        meshed(strict, steps, source, false),
        meshed(partial, steps, source, true),
        concluded(strict.last(), first, policy, bounds, vertices, bars, surfaces, constraint_synchronization),
        concluded(partial.last(), second, policy, bounds, vertices, bars, surfaces, constraint_synchronization),
    ensures
        start_error(source, policy, true) is None,
        reports_agree(first, second),
{
    runs_agree(strict, partial, steps, source, steps.len() as int);
    let (a, b) = (strict.last(), partial.last());
    assert(texts(a.blockers@).len() == a.blockers@.len() && texts(b.blockers@).len() == b.blockers@.len());
    ascending_determined(first.unresolved_surface_source_elements@, second.unresolved_surface_source_elements@);
    assert(some_malformed(a.quality_diagnostics@) == some_malformed(b.quality_diagnostics@)) by {
        let (x, y) = (a.quality_diagnostics@, b.quality_diagnostics@);
        if some_malformed(x) {
            let k = choose|k: int| 0 <= k < x.len() && malformed(#[trigger] x[k]);
            assert(diagnostic_agrees(x[k], y[k]));
            assert(malformed(y[k]));
        }
        if some_malformed(y) {
            let k = choose|k: int| 0 <= k < y.len() && malformed(#[trigger] y[k]);
            assert(diagnostic_agrees(x[k], y[k]));
            assert(malformed(x[k]));
        }
    }
    assert(texts(first.external_mesher_blockers@).len() == first.external_mesher_blockers@.len());
    assert(texts(second.external_mesher_blockers@).len() == second.external_mesher_blockers@.len());
}

proof fn gap_stays(builds: Seq<MeshBuild>, steps: Seq<MeshStep>, source: assembly::Report, allow: bool, k: int)
    requires
        meshed(builds, steps, source, allow),
        0 <= k <= steps.len(),
        !(surfaces_covered(source) && axes_covered(source)),
    ensures
        !(builds[k].surface_coverage_complete && builds[k].axis_coverage_complete),
    decreases k,
{
    if k > 0 {
        gap_stays(builds, steps, source, allow, k - 1);
        assert(stepped(builds[k - 1], builds[k - 1 + 1], steps[k - 1]));
    }
}

/// What the assembly left open refuses a mesh without gaps. One that allows for them
/// is never complete, ready for an external mesher or ready for export.
pub proof fn open_assembly_is_never_ready(
    source: assembly::Report,
    policy: Policy,
    steps: Seq<MeshStep>,
    builds: Seq<MeshBuild>,
    bounds: QualityBounds,
    vertices: Seq<Point>,
    bars: Seq<Bar>,
    surfaces: Seq<Surface>,
    constraint_synchronization: constraints::Report,
    report: Report,
)
    requires
        source.issues@.len() > 0 || source.axis_assembly.issues@.len() > 0,
        meshed(builds, steps, source, true),
        concluded(builds.last(), report, policy, bounds, vertices, bars, surfaces, constraint_synchronization),
    ensures
        start_error(source, policy, false) is Some,
        !report.source_coverage_complete,
        !report.external_mesher_ready,
        !report.export_ready,
{
    gap_stays(builds, steps, source, true, steps.len() as int);
    let build = builds.last();
    handoff_is_whole(
        build.topology_valid,
        build.triangles@,
        build.quality_diagnostics@,
        build.surface_coverage_complete && report.unresolved_surface_source_elements@.len() == 0,
        build.axis_coverage_complete && build.unresolved_axis_source_elements@.len() == 0,
    );
    assert(texts(report.external_mesher_blockers@).len() == report.external_mesher_blockers@.len());
}

/// A policy is usable exactly with a positive spacing and area, a positive angle of thirty
/// degrees at most, and room for a vertex.
pub proof fn mesh_policies_are_bounded(policy: Policy)
    ensures
        policy.usable() <==> positive(policy.boundary_spacing) && positive(policy.maximum_area) && positive(
            policy.minimum_angle_degrees,
        ) && policy.minimum_angle_degrees.le(Scalar { bits: 0x403e_0000_0000_0000 }) && policy.maximum_added_vertices_per_surface >= 1,
{
}

/// Of two numbers the lesser one is not above the other, the greater one not below it, and
/// both are among them.
pub proof fn extremes_are_extreme(a: Scalar, b: Scalar)
    requires
        !a.nan(),
        !b.nan(),
    ensures
        lesser(a, b).le(a) && lesser(a, b).le(b) && (lesser(a, b) == a || lesser(a, b) == b),
        a.le(greater(a, b)) && b.le(greater(a, b)) && (greater(a, b) == a || greater(a, b) == b),
{
}

/// What is no number counts for neither.
pub proof fn extremes_pass_over_what_is_no_number(a: Scalar, b: Scalar)
    requires
        a.nan(),
        !b.nan(),
    ensures
        lesser(a, b) == b && lesser(b, a) == b && greater(a, b) == b && greater(b, a) == b,
{
}

/// The least angle is not above any of the three angles.
pub proof fn least_angles_are_least(start: Scalar, angles: [Scalar; 3], i: int)
    requires
        !start.nan(),
        forall|k: int| 0 <= k < 3 ==> !(#[trigger] angles[k]).nan(),
        0 <= i < 3,
    ensures
        least_angle(start, angles).le(start),
        least_angle(start, angles).le(angles[i]),
        least_angle(start, angles) == start || exists|k: int| 0 <= k < 3 && least_angle(start, angles) == #[trigger] angles[k],
{
    assert(!angles[0].nan() && !angles[1].nan() && !angles[2].nan());
    assert(i == 0 || i == 1 || i == 2);
}

/// A triangle of the mesh is the face that was taken, with its surface and its stiffness; the
/// extremes of the mesh are those over all faces.
pub proof fn taken_faces_are_in_the_mesh(
    before: MeshBuild,
    after: MeshBuild,
    surface: usize,
    elements: Seq<u32>,
    stiffness: u32,
    face: Face,
    measure: FaceMeasure,
    limits: FaceLimits,
    constraints: Seq<Edge>,
    nodes: Seq<u32>,
)
    requires
        face_added(before, after, surface, elements, stiffness, face, measure, limits, constraints, nodes),
        !before.maximum_area.nan(),
        !measure.area.nan(),
    ensures
        after.triangles@.len() == before.triangles@.len() + 1,
        after.triangles@.last().vertices == face,
        after.triangles@.last().surface == surface,
        after.triangles@.last().stiffness == stiffness,
        after.triangles@.drop_last() == before.triangles@,
        before.maximum_area.le(after.maximum_area) && measure.area.le(after.maximum_area),
        after.quality_diagnostics@.len() > before.quality_diagnostics@.len() <==> reasons_against(measure, limits).len() > 0,
        degenerate(measure, limits) ==> texts(after.blockers@).len() > texts(before.blockers@).len(),
        !long_enough(measure, limits) ==> texts(after.blockers@).len() > texts(before.blockers@).len(),
        !degenerate(measure, limits) && long_enough(measure, limits) ==> texts(after.blockers@) == texts(before.blockers@),
        before.topology_valid == after.topology_valid,
{
    assert(after.triangles@.drop_last() =~= before.triangles@);
}

/// What is said of a triangle names its surface, its vertices with their source nodes, and the
/// faults that it has.
pub proof fn diagnostics_name_the_triangle(
    diagnostic: QualityDiagnostic,
    surface: usize,
    elements: Seq<u32>,
    face: Face,
    measure: FaceMeasure,
    limits: FaceLimits,
    constraints: Seq<Edge>,
    nodes: Seq<u32>,
    i: int,
)
    requires
        describes(diagnostic, surface, elements, face, measure, limits, constraints, nodes),
        0 <= i < 3,
    ensures
        diagnostic.surface == surface,
        diagnostic.source_elements@ == elements,
        diagnostic.vertices[i] == face[i],
        face[i] < nodes.len() ==> diagnostic.source_nodes[i] == Some(nodes[face[i] as int]),
        face[i] >= nodes.len() ==> diagnostic.source_nodes[i] is None,
        diagnostic.area == measure.area,
        diagnostic.reasons@ == reasons_against(measure, limits),
        malformed(diagnostic) <==> degenerate(measure, limits) || !long_enough(measure, limits),
{
    assert(i == 0 || i == 1 || i == 2);
    crate::reconstruction::mesh::faces::faults_of_triangles_are_named(measure, limits);
}

/// A surface that fails its check spoils the topology for good and is named.
pub proof fn failed_surfaces_spoil_the_topology(before: MeshBuild, after: MeshBuild, surface: usize, failed: bool)
    requires
        surface_checked(before, after, surface, failed),
    ensures
        failed ==> !after.topology_valid && texts(after.blockers@).last() == "coverage_or_constraint_failure: surface="@ + decimal(
            surface as nat,
        ),
        !failed ==> after.topology_valid == before.topology_valid && texts(after.blockers@) == texts(before.blockers@),
        !before.topology_valid ==> !after.topology_valid,
        after.triangles == before.triangles,
{
}

/// A mesh passes only with triangles, no blocker, no angle below the policy and no area above
/// its bound; where all that holds it does.
pub proof fn meshes_pass_without_blockers(build: MeshBuild, policy: Policy, bounds: QualityBounds)
    ensures
        quality_met(build, policy, bounds) <==> build.triangles@.len() >= 1 && build.blockers@.len() == 0
            && policy.minimum_angle_degrees.le(bounds.padded_angle) && build.maximum_area.le(bounds.maximum_area),
{
}

/// A hole is found exactly when its area cannot be told from nothing; the first such hole is.
pub proof fn holes_are_told_from_nothing(holes: Seq<HoleSize>, k: int)
    ensures
        unresolved_hole(holes, k) ==> 0 <= k < holes.len() && holes[k].area.le(holes[k].resolution),
        unresolved_hole(holes, k) ==> !holes_resolved(holes),
        holes_resolved(holes) ==> !unresolved_hole(holes, k),
        0 <= k < holes.len() && holes[k].area.le(holes[k].resolution) ==> !holes_resolved(holes),
        0 <= k < holes.len() && holes[k].area.le(holes[k].resolution) && holes_resolved(holes.take(k)) ==> unresolved_hole(holes, k),
{
    if 0 <= k < holes.len() && holes_resolved(holes.take(k)) {
        assert forall|m: int| 0 <= m < k implies !(#[trigger] holes[m]).area.le(holes[m].resolution) by {
            assert(!holes.take(k)[m].area.le(holes.take(k)[m].resolution));
        }
    }
}

/// A vertex that refinement put on an axis becomes a node there, unless one is there already,
/// whose name it then takes; outside the contact nothing happens.
pub proof fn refined_vertices_join_the_axis(
    before: Seq<ChainNode>,
    after: Seq<ChainNode>,
    names_before: Map<u64, usize>,
    names_after: Map<u64, usize>,
    vertex: usize,
    place: AxisPlace,
)
    requires
        promoted(before, after, names_before, names_after, vertex, place),
        place.gaps@.len() == before.len(),
        place.low.le(place.t) && place.t.le(place.high),
    ensures
        (forall|k: int| 0 <= k < before.len() ==> !(#[trigger] place.gaps@[k]).le(place.tolerance)) ==> after.len() == before.len() + 1
            && after.last().vertex == vertex && after.last().t == place.t && names_after == names_before,
        (exists|k: int| 0 <= k < before.len() && (#[trigger] place.gaps@[k]).le(place.tolerance)) ==> after == before && (
        exists|k: int|
            0 <= k < before.len() && (#[trigger] place.gaps@[k]).le(place.tolerance) && (before[k].vertex == vertex || (
            names_after.dom().contains(vertex as u64) && names_after[vertex as u64] == before[k].vertex))),
{
    if constraints::some_near(place.gaps@, place.tolerance) {
        let k = choose|k: int| #[trigger]
            constraints::first_near(place.gaps@, place.tolerance, k) && names_after == if before[k].vertex != vertex {
                names_before.insert(vertex as u64, before[k].vertex)
            } else {
                names_before
            };
        assert(place.gaps@[k].le(place.tolerance));
    }
}

/// A bar of the mesh joins two nodes of its axis that follow one another, and has the element
/// and the stiffness of the one span that its middle lies in.
pub proof fn bars_lie_in_one_span(
    bar: Bar,
    axis: usize,
    chain: Seq<ChainNode>,
    middles: Seq<Scalar>,
    spans: Seq<SourceSpan>,
    k: int,
    s: int,
)
    requires
        bar_at(bar, axis, chain, middles, spans, k),
        0 <= s < spans.len(),
        spans[s].start_t.le(middles[k]),
        middles[k].lt(spans[s].end_t),
    ensures
        bar.axis == axis,
        bar.vertices[0] == chain[k].vertex,
        bar.vertices[1] == chain[k + 1].vertex,
        bar.source_element == spans[s].element,
        bar.stiffness == spans[s].stiffness,
{
    let m = choose|m: int| #[trigger]
        only_span(spans, middles[k], m) && bar.source_element == spans[m].element && bar.stiffness == spans[m].stiffness;
    assert(span_holds(spans[s], middles[k]));
    if m != s {
        assert(!span_holds(spans[s], middles[k]));
    }
    assert(bar.vertices@[0] == chain[k].vertex);
    assert(bar.vertices@[1] == chain[k + 1].vertex);
}

/// A mesh is begun on an incomplete assembly only where gaps are allowed.
pub proof fn gaps_must_be_allowed(source: assembly::Report, policy: Policy, allow_unresolved: bool)
    ensures
        start_error(source, policy, allow_unresolved) is None <==> policy.usable() && (allow_unresolved || (
        source.all_surface_patches_built && source.issues@.len() == 0 && source.axis_assembly.all_axes_built
            && source.axis_assembly.issues@.len() == 0)),
{
}

/// What the assembly left out is on record, element by element.
pub proof fn open_elements_are_on_record(issues: Seq<assembly::Issue>, upto: int, i: int, id: u32)
    requires
        0 <= i < upto <= issues.len(),
        issues[i].source_elements@.contains(id),
    ensures
        surface_issue_elements(issues, upto).contains(id),
    decreases upto,
{
    crate::shares::contains_either(surface_issue_elements(issues, upto - 1), issues[upto - 1].source_elements@, id);
    if i < upto - 1 {
        open_elements_are_on_record(issues, upto - 1, i, id);
    }
}

/// The same of axes.
pub proof fn open_axis_elements_are_on_record(issues: Seq<assembly::bars::Issue>, upto: int, i: int, id: u32)
    requires
        0 <= i < upto <= issues.len(),
        issues[i].source_elements@.contains(id),
    ensures
        axis_issue_elements(issues, upto).contains(id),
    decreases upto,
{
    crate::shares::contains_either(axis_issue_elements(issues, upto - 1), issues[upto - 1].source_elements@, id);
    if i < upto - 1 {
        open_axis_elements_are_on_record(issues, upto - 1, i, id);
    }
}

/// A link is a bar exactly when its middle lies in one span and in no other, and the link stays
/// within the band of that span.
pub proof fn bars_stay_within_their_span(
    chain: Seq<ChainNode>,
    middles: Seq<Scalar>,
    spans: Seq<SourceSpan>,
    bands: Seq<SpanBand>,
    k: int,
    s: int,
)
    requires
        0 <= s < spans.len(),
        spans[s].start_t.le(middles[k]) && middles[k].lt(spans[s].end_t),
        forall|m: int|
            0 <= m < spans.len() && m != s ==> !((#[trigger] spans[m]).start_t.le(middles[k]) && middles[k].lt(spans[m].end_t)),
    ensures
        bar_fault(chain, middles, spans, bands, k) is None <==> !chain[k].t.lt(bands[s].low) && !bands[s].high.lt(chain[k + 1].t),
        bar_fault(chain, middles, spans, bands, k) is Some ==> bar_fault(chain, middles, spans, bands, k) == Some(
            "bar crosses property boundary"@,
        ),
{
    assert(span_holds(spans[s], middles[k]));
    assert(only_span(spans, middles[k], s));
    assert forall|t: int| #[trigger] only_span(spans, middles[k], t) implies t == s by {
        if t != s {
            assert(!span_holds(spans[s], middles[k]));
        }
    }
}

/// A link whose middle lies in no span, or in two, is no bar.
pub proof fn links_without_one_span_are_no_bars(
    chain: Seq<ChainNode>,
    middles: Seq<Scalar>,
    spans: Seq<SourceSpan>,
    bands: Seq<SpanBand>,
    k: int,
    s: int,
    m: int,
)
    requires
        (forall|i: int| 0 <= i < spans.len() ==> !((#[trigger] spans[i]).start_t.le(middles[k]) && middles[k].lt(spans[i].end_t))) || (0
            <= s < m < spans.len() && spans[s].start_t.le(middles[k]) && middles[k].lt(spans[s].end_t) && spans[m].start_t.le(middles[k])
            && middles[k].lt(spans[m].end_t)),
    ensures
        bar_fault(chain, middles, spans, bands, k) == Some("ambiguous bar property interval"@),
{
    if has_only_span(spans, middles[k]) {
        let i = choose|i: int| #[trigger] only_span(spans, middles[k], i);
        assert(span_holds(spans[i], middles[k]));
        if 0 <= s < m < spans.len() && span_holds(spans[s], middles[k]) && span_holds(spans[m], middles[k]) {
            if i != s {
                assert(!span_holds(spans[s], middles[k]));
            } else {
                assert(!span_holds(spans[m], middles[k]));
            }
        }
    }
}

/// A chain has one link fewer than nodes.
pub proof fn links_are_between_nodes(chain: Seq<ChainNode>)
    ensures
        chain.len() > 0 ==> link_count(chain) == chain.len() - 1,
        chain.len() == 0 ==> link_count(chain) == 0,
{
}

} // verus!
