//! Connected planar hypotheses from source shells, before contour construction.
use vstd::prelude::*;
use crate::connectivity::{answered_groups, answered_relation, components_of, connected, connected_reflexive, label_pairs, share_label};
use crate::input::{ElementData, MeshData};
use crate::ordering::{all_distinct_ids, append_ids, ascending, ascending_indices, lists_id, sorted_indices, unique};
use crate::reconstruction::recognize::{distinct_ids, element_ids, id_order, ids_distinct, is_finite_point, placed, QUARTER_PI_BITS};
use crate::reconstruction::PlaneFrame;
use crate::scalar::Scalar;
use crate::shares::{contains_either, held, held_at, joined_has, joined_ids, list_shares, share_added, shared_out, shares_accumulate, shares_join};

verus! {

#[derive(Debug, Clone, Copy)]
pub struct Policy {
    pub angle: Scalar,
    pub distance: Scalar,
    pub precision: Scalar,
}

impl Policy {
    pub open spec fn valid(&self) -> bool {
        &&& crate::scalar::positive(self.angle)
        &&& self.angle.lt(Scalar { bits: QUARTER_PI_BITS })
        &&& self.distance.finite()
        &&& crate::scalar::positive(self.precision)
        &&& self.precision.le(self.distance)
    }

    pub fn is_valid(&self) -> (r: bool)
        ensures
            r == self.valid(),
    {
        crate::scalar::is_positive(&self.angle) && self.angle.less(
            &Scalar { bits: QUARTER_PI_BITS },
        ) && self.distance.is_finite() && crate::scalar::is_positive(&self.precision)
            && self.precision.at_most(&self.distance)
    }
}

/// The elements of a patch that share one stiffness.
#[derive(Debug)]
pub struct StiffnessRegion {
    pub stiffness: u32,
    pub elements: Vec<u32>,
}

#[derive(Debug)]
pub struct Patch {
    pub plane: PlaneFrame,
    pub source_elements: Vec<u32>,
    pub source_nodes: Vec<u32>,
    pub stiffness_regions: Vec<StiffnessRegion>,
    pub maximum_deviation: Scalar,
}

#[derive(Debug)]
pub struct Rejection {
    pub element: u32,
    pub reason: String,
}

#[derive(Debug)]
pub struct Report {
    pub policy: Policy,
    pub patches: Vec<Patch>,
    pub rejected: Vec<Rejection>,
    pub unmerged_components: Vec<Vec<u32>>,
    pub non_shell_elements: Vec<u32>,
}

/// A usable shell with its nodes in perimeter order.
#[derive(Debug)]
pub struct Facet {
    pub element: usize,
    pub id: u32,
    pub stiffness: u32,
    pub nodes: Vec<u32>,
}

/// The source elements, sorted out by number.
#[derive(Debug)]
pub struct ShellSurvey {
    pub facets: Vec<Facet>,
    pub rejected: Vec<Rejection>,
    pub non_shell_elements: Vec<u32>,
}

pub open spec fn all_placed(mesh: MeshData, nodes: Seq<u32>) -> bool {
    forall|k: int| 0 <= k < nodes.len() ==> placed(mesh, #[trigger] nodes[k])
}

/// `order` holds the same distinct nodes as `nodes`, possibly in another order.
pub open spec fn rearranges(order: Seq<u32>, nodes: Seq<u32>) -> bool {
    &&& order.len() == nodes.len()
    &&& order.no_duplicates()
    &&& forall|k: int| 0 <= k < order.len() ==> nodes.contains(#[trigger] order[k])
}

/// A shell whose nodes are placed and distinct and have a perimeter order.
pub open spec fn facetable(mesh: MeshData, element: ElementData, perimeter: Option<Vec<u32>>) -> bool {
    &&& element.shell()
    &&& all_placed(mesh, element.nodes@)
    &&& element.nodes@.no_duplicates()
    &&& match perimeter {
        Some(order) => rearranges(order@, element.nodes@),
        None => false,
    }
}

pub open spec fn facet_of(
    facet: Facet,
    mesh: MeshData,
    perimeters: Seq<Option<Vec<u32>>>,
) -> bool {
    let e = facet.element as int;
    &&& 0 <= e < mesh.elements@.len()
    &&& facetable(mesh, mesh.elements@[e], perimeters[e])
    &&& facet.id == mesh.elements@[e].id
    &&& facet.stiffness == mesh.elements@[e].stiff_id
    &&& facet.nodes@ == perimeters[e]->0@
}

pub open spec fn shell_refused(
    mesh: MeshData,
    perimeters: Seq<Option<Vec<u32>>>,
    id: u32,
) -> bool {
    exists|e: int|
        0 <= e < mesh.elements@.len() && (#[trigger] mesh.elements@[e]).id == id
            && mesh.elements@[e].shell() && !facetable(mesh, mesh.elements@[e], perimeters[e])
}

pub open spec fn not_shell(elements: Seq<ElementData>, id: u32) -> bool {
    exists|e: int|
        0 <= e < elements.len() && (#[trigger] elements[e]).id == id && !elements[e].shell()
}

pub open spec fn facet_listed(facets: Seq<Facet>, e: int) -> bool {
    exists|f: int| 0 <= f < facets.len() && (#[trigger] facets[f]).element == e
}

pub open spec fn rejection_listed(rejected: Seq<Rejection>, id: u32) -> bool {
    exists|k: int| 0 <= k < rejected.len() && (#[trigger] rejected[k]).element == id
}

impl ShellSurvey {
    /// Each element stands in exactly the list it belongs to; every list is
    /// ascending by element number.
    pub open spec fn sorts(&self, mesh: MeshData, perimeters: Seq<Option<Vec<u32>>>) -> bool {
        &&& forall|f: int|
            0 <= f < self.facets@.len() ==> facet_of(#[trigger] self.facets@[f], mesh, perimeters)
        &&& forall|f: int, g: int|
            0 <= f < g < self.facets@.len() ==> (#[trigger] self.facets@[f]).id < (
            #[trigger] self.facets@[g]).id
        &&& forall|e: int|
            0 <= e < mesh.elements@.len() && facetable(
                mesh,
                #[trigger] mesh.elements@[e],
                perimeters[e],
            ) ==> facet_listed(self.facets@, e)
        &&& forall|k: int|
            0 <= k < self.rejected@.len() ==> shell_refused(
                mesh,
                perimeters,
                (#[trigger] self.rejected@[k]).element,
            ) && self.rejected@[k].reason@ == "invalid_degenerate_or_excessively_warped_shell"@
        &&& forall|k: int, l: int|
            0 <= k < l < self.rejected@.len() ==> (#[trigger] self.rejected@[k]).element < (
            #[trigger] self.rejected@[l]).element
        &&& forall|id: u32| #[trigger]
            shell_refused(mesh, perimeters, id) ==> rejection_listed(self.rejected@, id)
        &&& ascending(self.non_shell_elements@)
        &&& forall|id: u32| #[trigger]
            self.non_shell_elements@.contains(id) <==> not_shell(mesh.elements@, id)
    }
}

fn are_placed(mesh: &MeshData, nodes: &Vec<u32>) -> (r: bool)
    ensures
        r == all_placed(*mesh, nodes@),
{
    let mut k: usize = 0;
    while k < nodes.len()
        invariant
            k <= nodes.len(),
            forall|i: int| 0 <= i < k ==> placed(*mesh, #[trigger] nodes@[i]),
        decreases nodes.len() - k,
    {
        let ok: bool = match mesh.nodes.get(nodes[k]) {
            Some(point) => is_finite_point(&point),
            None => false,
        };
        if !ok {
            assert(!placed(*mesh, nodes@[k as int]));
            return false;
        }
        k += 1;
    }
    true
}

fn is_rearrangement(order: &Vec<u32>, nodes: &Vec<u32>) -> (r: bool)
    ensures
        r == rearranges(order@, nodes@),
{
    if order.len() != nodes.len() || !all_distinct_ids(order) {
        return false;
    }
    let mut k: usize = 0;
    while k < order.len()
        invariant
            k <= order.len(),
            order.len() == nodes.len(),
            order@.no_duplicates(),
            forall|i: int| 0 <= i < k ==> nodes@.contains(#[trigger] order@[i]),
        decreases order.len() - k,
    {
        if !lists_id(nodes, order[k]) {
            assert(!nodes@.contains(order@[k as int]));
            return false;
        }
        k += 1;
    }
    true
}

fn is_facetable(mesh: &MeshData, element: &ElementData, perimeter: &Option<Vec<u32>>) -> (r: bool)
    ensures
        r == facetable(*mesh, *element, *perimeter),
{
    if !element.is_shell() || !are_placed(mesh, &element.nodes) || !all_distinct_ids(
        &element.nodes,
    ) {
        return false;
    }
    match perimeter {
        Some(order) => is_rearrangement(order, &element.nodes),
        None => false,
    }
}

spec fn ordered(order: Seq<usize>, e: int) -> bool {
    exists|i: int| 0 <= i < order.len() && #[trigger] order[i] == e
}

spec fn handled(elements: Seq<ElementData>, order: Seq<usize>, upto: int, id: u32) -> bool {
    exists|i: int| 0 <= i < upto && elements[#[trigger] order[i] as int].id == id
}

/// Sorts the source elements out. `perimeters` holds, for each shell whose
/// perimeter could be recovered, its nodes in cyclic order.
#[verifier::loop_isolation(false)]
#[verifier::rlimit(60)]
pub fn survey_shells(
    mesh: &MeshData,
    policy: &Policy,
    perimeters: &Vec<Option<Vec<u32>>>,
) -> (r: Result<ShellSurvey, &'static str>)
    requires
        perimeters@.len() == mesh.elements@.len(),
    ensures
        match r {
            Ok(survey) => policy.valid() && distinct_ids(mesh.elements@) && survey.sorts(
                *mesh,
                perimeters@,
            ),
            Err(reason) => if policy.valid() {
                reason@ == "duplicate source element ID"@ && !distinct_ids(mesh.elements@)
            } else {
                reason@ == "invalid plane policy"@
            },
        },
{
    if !policy.is_valid() {
        return Err("invalid plane policy");
    }
    if !ids_distinct(&mesh.elements) {
        return Err("duplicate source element ID");
    }
    let (keys, order) = id_order(&mesh.elements);
    let mut result = ShellSurvey {
        facets: Vec::new(),
        rejected: Vec::new(),
        non_shell_elements: Vec::new(),
    };
    let ghost elements = mesh.elements@;
    let mut k: usize = 0;
    while k < order.len()
        invariant
            k <= order.len(),
            forall|f: int|
                0 <= f < result.facets@.len() ==> facet_of(
                    #[trigger] result.facets@[f],
                    *mesh,
                    perimeters@,
                ) && handled(elements, order@, k as int, result.facets@[f].id),
            forall|f: int, g: int|
                0 <= f < g < result.facets@.len() ==> (#[trigger] result.facets@[f]).id < (
                #[trigger] result.facets@[g]).id,
            forall|i: int|
                0 <= i < k && facetable(
                    *mesh,
                    elements[#[trigger] order@[i] as int],
                    perimeters@[order@[i] as int],
                ) ==> facet_listed(result.facets@, order@[i] as int),
            forall|b: int|
                0 <= b < result.rejected@.len() ==> shell_refused(
                    *mesh,
                    perimeters@,
                    (#[trigger] result.rejected@[b]).element,
                ) && result.rejected@[b].reason@
                    == "invalid_degenerate_or_excessively_warped_shell"@ && handled(
                    elements,
                    order@,
                    k as int,
                    result.rejected@[b].element,
                ),
            forall|b: int, c: int|
                0 <= b < c < result.rejected@.len() ==> (#[trigger] result.rejected@[b]).element < (
                #[trigger] result.rejected@[c]).element,
            forall|i: int|
                0 <= i < k && elements[#[trigger] order@[i] as int].shell() && !facetable(
                    *mesh,
                    elements[order@[i] as int],
                    perimeters@[order@[i] as int],
                ) ==> rejection_listed(result.rejected@, elements[order@[i] as int].id),
            ascending(result.non_shell_elements@),
            forall|b: int|
                0 <= b < result.non_shell_elements@.len() ==> handled(
                    elements,
                    order@,
                    k as int,
                    #[trigger] result.non_shell_elements@[b],
                ) && not_shell(elements, result.non_shell_elements@[b]),
            forall|i: int|
                0 <= i < k && !elements[#[trigger] order@[i] as int].shell()
                    ==> result.non_shell_elements@.contains(elements[order@[i] as int].id),
        decreases order.len() - k,
    {
        let e: usize = order[k];
        let element = &mesh.elements[e];
        let ghost before = result;
        proof {
            assert forall|id: u32| #[trigger] handled(elements, order@, k as int, id) implies id
                < element.id && handled(elements, order@, k + 1, id) by {
                let i = choose|i: int| 0 <= i < k && elements[#[trigger] order@[i] as int].id == id;
                assert(crate::ordering::key_before(keys@, order@[i], order@[k as int]));
                assert(keys@[order@[i] as int] == elements[order@[i] as int].id);
                assert(keys@[e as int] == elements[e as int].id);
                assert(order@[i] != order@[k as int]);
                if order@[i] < e {
                    assert(elements[order@[i] as int].id != elements[e as int].id);
                } else {
                    assert(elements[e as int].id != elements[order@[i] as int].id);
                }
            }
            assert(elements[order@[k as int] as int].id == element.id);
            assert(handled(elements, order@, k + 1, element.id));
        }
        if !element.is_shell() {
            result.non_shell_elements.push(element.id);
            proof {
                let list = result.non_shell_elements@;
                assert(list[list.len() - 1] == element.id);
                assert(elements[e as int].id == element.id);
                assert forall|x: u32| before.non_shell_elements@.contains(x) implies list.contains(x) by {
                    let m = choose|m: int| 0 <= m < before.non_shell_elements@.len() && before.non_shell_elements@[m] == x;
                    assert(list[m] == x);
                }
            }
        } else if is_facetable(mesh, element, &perimeters[e]) {
            let nodes: Vec<u32> = match &perimeters[e] {
                Some(list) => crate::ordering::copy_ids(list),
                None => Vec::new(),
            };
            let facet = Facet { element: e, id: element.id, stiffness: element.stiff_id, nodes };
            result.facets.push(facet);
            assert(result.facets@[result.facets@.len() - 1] == facet);
            assert(facet_listed(result.facets@, e as int));
        } else {
            result.rejected.push(
                Rejection {
                    element: element.id,
                    reason: "invalid_degenerate_or_excessively_warped_shell".to_string(),
                },
            );
            assert(result.rejected@[result.rejected@.len() - 1].element == element.id);
            assert(elements[e as int].id == element.id);
            assert(shell_refused(*mesh, perimeters@, element.id));
            assert(rejection_listed(result.rejected@, element.id));
        }
        proof {
            assert forall|x: int| facet_listed(before.facets@, x) implies #[trigger] facet_listed(result.facets@, x) by {
                let f = choose|f: int| 0 <= f < before.facets@.len() && (#[trigger] before.facets@[f]).element == x;
                assert(result.facets@[f] == before.facets@[f]);
            }
            assert forall|x: u32| rejection_listed(before.rejected@, x) implies #[trigger] rejection_listed(result.rejected@, x) by {
                let f = choose|f: int| 0 <= f < before.rejected@.len() && (#[trigger] before.rejected@[f]).element == x;
                assert(result.rejected@[f] == before.rejected@[f]);
            }
            assert forall|f: int| 0 <= f < result.facets@.len() implies facet_of(#[trigger] result.facets@[f], *mesh, perimeters@)
                && handled(elements, order@, k + 1, result.facets@[f].id) by {
                if f < before.facets@.len() {
                    assert(result.facets@[f] == before.facets@[f]);
                }
            }
            assert forall|b: int| 0 <= b < result.non_shell_elements@.len() implies handled(elements, order@, k + 1, #[trigger] result.non_shell_elements@[b])
                && not_shell(elements, result.non_shell_elements@[b]) by {
                if b < before.non_shell_elements@.len() {
                    assert(before.non_shell_elements@[b] == result.non_shell_elements@[b]);
                } else {
                    assert(elements[e as int].id == result.non_shell_elements@[b]);
                }
            }
        }
        k += 1;
    }
    proof {
        assert forall|e: int| 0 <= e < elements.len() implies #[trigger] ordered(order@, e) by {
            assert(order@.contains(e as usize));
            let i = choose|i: int| 0 <= i < order@.len() && order@[i] == e as usize;
            assert(order@[i] == e);
        }
        assert forall|e: int| 0 <= e < elements.len() && facetable(*mesh, #[trigger] elements[e], perimeters@[e]) implies facet_listed(result.facets@, e) by {
            assert(ordered(order@, e));
            let i = choose|i: int| 0 <= i < order@.len() && #[trigger] order@[i] == e;
            assert(facetable(*mesh, elements[order@[i] as int], perimeters@[order@[i] as int]));
        }
        assert forall|id: u32| #[trigger] shell_refused(*mesh, perimeters@, id) implies rejection_listed(result.rejected@, id) by {
            let e = choose|e: int| 0 <= e < elements.len() && (#[trigger] elements[e]).id == id && elements[e].shell() && !facetable(*mesh, elements[e], perimeters@[e]);
            assert(ordered(order@, e));
            let i = choose|i: int| 0 <= i < order@.len() && #[trigger] order@[i] == e;
            assert(elements[order@[i] as int].shell());
        }
        assert forall|id: u32| #[trigger] result.non_shell_elements@.contains(id) <==> not_shell(elements, id) by {
            if result.non_shell_elements@.contains(id) {
                let b = choose|b: int| 0 <= b < result.non_shell_elements@.len() && result.non_shell_elements@[b] == id;
                assert(not_shell(elements, result.non_shell_elements@[b]));
            }
            if not_shell(elements, id) {
                let e = choose|e: int| 0 <= e < elements.len() && (#[trigger] elements[e]).id == id && !elements[e].shell();
                assert(ordered(order@, e));
                let i = choose|i: int| 0 <= i < order@.len() && #[trigger] order@[i] == e;
                assert(!elements[order@[i] as int].shell());
            }
        }
    }
    Ok(result)
}

/// The undirected perimeter edge after position `i`.
pub open spec fn perimeter_edge(nodes: Seq<u32>, i: int) -> (u32, u32) {
    let a = nodes[i];
    let b = nodes[if i + 1 < nodes.len() {
        i + 1
    } else {
        0
    }];
    if a <= b {
        (a, b)
    } else {
        (b, a)
    }
}

pub open spec fn has_edge(nodes: Seq<u32>, edge: (u32, u32)) -> bool {
    exists|i: int| 0 <= i < nodes.len() && #[trigger] perimeter_edge(nodes, i) == edge
}

/// Two facets meet along a perimeter edge.
pub open spec fn share_edge(first: Seq<u32>, second: Seq<u32>) -> bool {
    exists|edge: (u32, u32)| #[trigger] has_edge(first, edge) && has_edge(second, edge)
}

pub open spec fn edge_number(edge: (u32, u32)) -> u64 {
    (edge.0 * 0x1_0000_0000 + edge.1) as u64
}

pub(crate) fn edge_number_at(nodes: &Vec<u32>, i: usize) -> (r: u64)
    requires
        i < nodes.len(),
    ensures
        r == edge_number(perimeter_edge(nodes@, i as int)),
{
    let a: u32 = nodes[i];
    let b: u32 = if i + 1 < nodes.len() {
        nodes[i + 1]
    } else {
        nodes[0]
    };
    if a <= b {
        a as u64 * 0x1_0000_0000 + b as u64
    } else {
        b as u64 * 0x1_0000_0000 + a as u64
    }
}

pub proof fn edge_number_injective(a: (u32, u32), b: (u32, u32))
    ensures
        edge_number(a) == edge_number(b) ==> a == b,
{
}

/// Edge labels of each ring of nodes.
pub(crate) fn edge_labels(rings: &Vec<Vec<u32>>) -> (labels: Vec<Vec<u64>>)
    ensures
        labels.len() == rings.len(),
        forall|r: int, x: u64|
            0 <= r < rings.len() ==> (#[trigger] labels@[r]@.contains(x) <==> exists|i: int|
                0 <= i < rings@[r]@.len() && x == edge_number(#[trigger] perimeter_edge(rings@[r]@, i))),
{
    let mut labels: Vec<Vec<u64>> = Vec::new();
    let mut r: usize = 0;
    while r < rings.len()
        invariant
            r <= rings.len(),
            labels.len() == r,
            forall|s: int, x: u64|
                0 <= s < r ==> (#[trigger] labels@[s]@.contains(x) <==> exists|i: int|
                    0 <= i < rings@[s]@.len() && x == edge_number(
                        #[trigger] perimeter_edge(rings@[s]@, i),
                    )),
        decreases rings.len() - r,
    {
        let mut list: Vec<u64> = Vec::new();
        let mut i: usize = 0;
        while i < rings[r].len()
            invariant
                r < rings.len(),
                i <= rings@[r as int]@.len(),
                list.len() == i,
                forall|k: int|
                    0 <= k < i ==> #[trigger] list@[k] == edge_number(
                        perimeter_edge(rings@[r as int]@, k),
                    ),
            decreases rings@[r as int]@.len() - i,
        {
            list.push(edge_number_at(&rings[r], i));
            i += 1;
        }
        proof {
            assert forall|x: u64| #[trigger] list@.contains(x) <==> exists|i: int|
                0 <= i < rings@[r as int]@.len() && x == edge_number(#[trigger] perimeter_edge(rings@[r as int]@, i)) by {
                if list@.contains(x) {
                    let k = choose|k: int| 0 <= k < list@.len() && list@[k] == x;
                    assert(x == edge_number(perimeter_edge(rings@[r as int]@, k)));
                }
                if exists|i: int| 0 <= i < rings@[r as int]@.len() && x == edge_number(#[trigger] perimeter_edge(rings@[r as int]@, i)) {
                    let i = choose|i: int| 0 <= i < rings@[r as int]@.len() && x == edge_number(#[trigger] perimeter_edge(rings@[r as int]@, i));
                    assert(list@[i] == x);
                }
            }
        }
        labels.push(list);
        r += 1;
    }
    labels
}

/// All pairs, smaller index first, of facets that meet along an edge.
#[verifier::loop_isolation(false)]
pub fn facet_pairs(facets: &Vec<Facet>) -> (pairs: Vec<(usize, usize)>)
    ensures
        forall|a: usize, b: usize| #[trigger] pairs@.contains((a, b)) <==> a < b < facets.len()
            && share_edge(facets@[a as int].nodes@, facets@[b as int].nodes@),
{
    let mut rings: Vec<Vec<u32>> = Vec::new();
    let mut f: usize = 0;
    while f < facets.len()
        invariant
            f <= facets.len(),
            rings.len() == f,
            forall|g: int| 0 <= g < f ==> (#[trigger] rings@[g])@ == facets@[g].nodes@,
        decreases facets.len() - f,
    {
        rings.push(crate::ordering::copy_ids(&facets[f].nodes));
        f += 1;
    }
    let labels = edge_labels(&rings);
    let pairs = label_pairs(&labels);
    proof {
        assert forall|a: usize, b: usize| a < facets.len() && b < facets.len() implies (share_label(labels@)(a as int, b as int)
            <==> #[trigger] share_edge(facets@[a as int].nodes@, facets@[b as int].nodes@)) by {
            shared_labels_are_edges(rings@, labels@, a as int, b as int);
            assert(rings@[a as int]@ == facets@[a as int].nodes@);
            assert(rings@[b as int]@ == facets@[b as int].nodes@);
        }
        assert forall|a: usize, b: usize| #[trigger] pairs@.contains((a, b)) <==> a < b < facets.len()
            && share_edge(facets@[a as int].nodes@, facets@[b as int].nodes@) by {
            assert(pairs@.contains((a, b)) <==> a < b < labels.len() && share_label(labels@)(a as int, b as int));
        }
    }
    pairs
}

pub(crate) proof fn shared_labels_are_edges(rings: Seq<Vec<u32>>, labels: Seq<Vec<u64>>, a: int, b: int)
    requires
        labels.len() == rings.len(),
        0 <= a < rings.len(),
        0 <= b < rings.len(),
        forall|r: int, x: u64|
            0 <= r < rings.len() ==> (#[trigger] labels[r]@.contains(x) <==> exists|i: int|
                0 <= i < rings[r]@.len() && x == edge_number(#[trigger] perimeter_edge(rings[r]@, i))),
    ensures
        share_label(labels)(a, b) <==> share_edge(rings[a]@, rings[b]@),
{
    if share_label(labels)(a, b) {
        let x = choose|x: u64| #[trigger] labels[a]@.contains(x) && labels[b]@.contains(x);
        let i = choose|i: int| 0 <= i < rings[a]@.len() && x == edge_number(#[trigger] perimeter_edge(rings[a]@, i));
        let j = choose|j: int| 0 <= j < rings[b]@.len() && x == edge_number(#[trigger] perimeter_edge(rings[b]@, j));
        edge_number_injective(perimeter_edge(rings[a]@, i), perimeter_edge(rings[b]@, j));
        assert(has_edge(rings[a]@, perimeter_edge(rings[a]@, i)));
        assert(has_edge(rings[b]@, perimeter_edge(rings[a]@, i)));
    }
    if share_edge(rings[a]@, rings[b]@) {
        let edge = choose|edge: (u32, u32)| #[trigger] has_edge(rings[a]@, edge) && has_edge(rings[b]@, edge);
        let x = edge_number(edge);
        let i = choose|i: int| 0 <= i < rings[a]@.len() && #[trigger] perimeter_edge(rings[a]@, i) == edge;
        let j = choose|j: int| 0 <= j < rings[b]@.len() && #[trigger] perimeter_edge(rings[b]@, j) == edge;
        assert(labels[a]@.contains(x));
        assert(labels[b]@.contains(x));
    }
}

/// Facets that meet along an edge and were found coplanar stay together,
/// however long the chain between them.
pub fn coplanar_groups(facets: &Vec<Facet>, pairs: &Vec<(usize, usize)>, coplanar: &Vec<bool>) -> (groups:
    Vec<Vec<usize>>)
    requires
        coplanar.len() == pairs.len(),
        forall|k: int|
            0 <= k < pairs.len() ==> (#[trigger] pairs@[k]).0 < facets.len() && pairs@[k].1
                < facets.len(),
    ensures
        components_of(groups@, facets.len() as int, answered_relation(pairs@, coplanar@)),
{
    answered_groups(facets.len(), pairs, coplanar)
}

/// `regions` partitions the group's elements by stiffness: ascending by
/// stiffness, and by element number within one.
pub open spec fn regions_of(
    regions: Seq<StiffnessRegion>,
    facets: Seq<Facet>,
    group: Seq<usize>,
) -> bool {
    &&& forall|r: int, q: int|
        0 <= r < q < regions.len() ==> (#[trigger] regions[r]).stiffness < (
        #[trigger] regions[q]).stiffness
    &&& forall|r: int|
        0 <= r < regions.len() ==> (#[trigger] regions[r]).elements@.len() > 0 && ascending(
            regions[r].elements@,
        )
    &&& forall|r: int, id: u32|
        0 <= r < regions.len() && #[trigger] regions[r].elements@.contains(id) ==> member_with(
            facets,
            group,
            regions[r].stiffness,
            id,
        )
    &&& forall|m: int|
        0 <= m < group.len() ==> region_holds(
            regions,
            facets[#[trigger] group[m] as int].stiffness,
            facets[group[m] as int].id,
        )
}

pub open spec fn member_with(facets: Seq<Facet>, group: Seq<usize>, stiffness: u32, id: u32) -> bool {
    exists|m: int|
        0 <= m < group.len() && facets[#[trigger] group[m] as int].stiffness == stiffness
            && facets[group[m] as int].id == id
}

pub open spec fn region_holds(regions: Seq<StiffnessRegion>, stiffness: u32, id: u32) -> bool {
    exists|r: int|
        0 <= r < regions.len() && (#[trigger] regions[r]).stiffness == stiffness
            && regions[r].elements@.contains(id)
}

pub open spec fn facets_sorted(facets: Seq<Facet>) -> bool {
    forall|f: int, g: int|
        0 <= f < g < facets.len() ==> (#[trigger] facets[f]).id < (#[trigger] facets[g]).id
}

#[verifier::loop_isolation(false)]
pub fn stiffness_regions(facets: &Vec<Facet>, group: &Vec<usize>) -> (regions: Vec<StiffnessRegion>)
    requires
        facets_sorted(facets@),
        crate::ordering::ascending_indices(group@),
        forall|m: int| 0 <= m < group.len() ==> #[trigger] group@[m] < facets.len(),
    ensures
        regions_of(regions@, facets@, group@),
{
    let mut keys: Vec<i128> = Vec::new();
    let mut m: usize = 0;
    while m < group.len()
        invariant
            m <= group.len(),
            keys.len() == m,
            forall|k: int| 0 <= k < m ==> #[trigger] keys@[k] == facets@[group@[k] as int].stiffness,
        decreases group.len() - m,
    {
        keys.push(facets[group[m]].stiffness as i128);
        m += 1;
    }
    let order = sorted_indices(&keys);
    let mut regions: Vec<StiffnessRegion> = Vec::new();
    let mut k: usize = 0;
    while k < order.len()
        invariant
            k <= order.len(),
            forall|r: int, q: int|
                0 <= r < q < regions@.len() ==> (#[trigger] regions@[r]).stiffness < (
                #[trigger] regions@[q]).stiffness,
            forall|r: int|
                0 <= r < regions@.len() ==> (#[trigger] regions@[r]).elements@.len() > 0 && ascending(
                    regions@[r].elements@,
                ),
            forall|r: int, id: u32|
                0 <= r < regions@.len() && #[trigger] regions@[r].elements@.contains(id) ==> member_with(
                    facets@,
                    group@,
                    regions@[r].stiffness,
                    id,
                ),
            forall|i: int|
                0 <= i < k ==> region_holds(
                    regions@,
                    facets@[group@[#[trigger] order@[i] as int] as int].stiffness,
                    facets@[group@[order@[i] as int] as int].id,
                ),
            k == 0 <==> regions@.len() == 0,
            k > 0 ==> {
                let last = facets@[group@[order@[k - 1] as int] as int];
                let region = regions@[regions@.len() - 1];
                region.stiffness == last.stiffness && region.elements@[region.elements@.len() - 1] == last.id
            },
        decreases order.len() - k,
    {
        let member: usize = order[k];
        let f: usize = group[member];
        let stiffness: u32 = facets[f].stiffness;
        let id: u32 = facets[f].id;
        let count: usize = regions.len();
        let ghost before = regions@;
        let extends: bool = count > 0 && regions[count - 1].stiffness == stiffness;
        proof {
            assert(keys@[member as int] == stiffness);
            assert(facets@[group@[member as int] as int].stiffness == stiffness);
            assert(member_with(facets@, group@, stiffness, id));
            if k > 0 {
                let prior = order@[k - 1];
                assert(crate::ordering::key_before(keys@, prior, member));
                assert(keys@[prior as int] == facets@[group@[prior as int] as int].stiffness);
                if extends {
                    assert(prior < member);
                    assert(group@[prior as int] < group@[member as int]);
                    assert(facets@[group@[prior as int] as int].id < facets@[group@[member as int] as int].id);
                }
            }
        }
        if extends {
            regions[count - 1].elements.push(id);
            proof {
                let old_list = before[count - 1].elements@;
                let list = regions@[count - 1].elements@;
                assert(list == old_list.push(id));
                assert(list[list.len() - 1] == id);
                assert forall|i: int, j: int| 0 <= i < j < list.len() implies list[i] < list[j] by {
                    if j == old_list.len() && i < old_list.len() - 1 {
                        assert(old_list[i] < old_list[old_list.len() - 1]);
                    }
                }
                assert forall|r: int, x: u32| 0 <= r < regions@.len() && #[trigger] regions@[r].elements@.contains(x) implies member_with(facets@, group@, regions@[r].stiffness, x) by {
                    if r < count - 1 {
                        assert(before[r].elements@.contains(x));
                    } else if x != id {
                        let q = choose|q: int| 0 <= q < list.len() && list[q] == x;
                        assert(old_list[q] == x);
                        assert(before[r].elements@.contains(x));
                    }
                }
                assert forall|x: u32, y: u32| region_holds(before, x, y) implies #[trigger] region_holds(regions@, x, y) by {
                    let r = choose|r: int| 0 <= r < before.len() && (#[trigger] before[r]).stiffness == x && before[r].elements@.contains(y);
                    let q = choose|q: int| 0 <= q < before[r].elements@.len() && before[r].elements@[q] == y;
                    assert(regions@[r].stiffness == x);
                    assert(regions@[r].elements@[q] == y);
                }
                assert(regions@[count - 1].stiffness == stiffness);
                assert(region_holds(regions@, stiffness, id));
            }
        } else {
            let mut elements: Vec<u32> = Vec::new();
            elements.push(id);
            regions.push(StiffnessRegion { stiffness, elements });
            proof {
                assert(regions@[count as int].elements@[0] == id);
                assert forall|r: int, x: u32| 0 <= r < regions@.len() && #[trigger] regions@[r].elements@.contains(x) implies member_with(facets@, group@, regions@[r].stiffness, x) by {
                    if r < count {
                        assert(before[r].elements@.contains(x));
                    }
                }
                assert forall|x: u32, y: u32| region_holds(before, x, y) implies #[trigger] region_holds(regions@, x, y) by {
                    let r = choose|r: int| 0 <= r < before.len() && (#[trigger] before[r]).stiffness == x && before[r].elements@.contains(y);
                    assert(regions@[r] == before[r]);
                }
                assert forall|r: int| 0 <= r < count implies (#[trigger] regions@[r]).stiffness < stiffness by {
                    if r < count - 1 {
                        assert(before[r].stiffness < before[count - 1].stiffness);
                    }
                }
                assert(regions@[count as int].elements@.contains(id));
                assert(region_holds(regions@, stiffness, id));
            }
        }
        k += 1;
    }
    proof {
        assert forall|x: int| 0 <= x < group@.len() implies region_holds(regions@, facets@[#[trigger] group@[x] as int].stiffness, facets@[group@[x] as int].id) by {
            assert(order@.contains(x as usize));
            let i = choose|i: int| 0 <= i < order@.len() && order@[i] == x as usize;
            assert(region_holds(regions@, facets@[group@[order@[i] as int] as int].stiffness, facets@[group@[order@[i] as int] as int].id));
        }
    }
    regions
}

/// A node of some facet of the group.
pub open spec fn group_node(facets: Seq<Facet>, group: Seq<usize>, node: u32) -> bool {
    exists|m: int| 0 <= m < group.len() && facets[#[trigger] group[m] as int].nodes@.contains(node)
}

#[verifier::loop_isolation(false)]
pub fn group_nodes(facets: &Vec<Facet>, group: &Vec<usize>) -> (nodes: Vec<u32>)
    requires
        forall|m: int| 0 <= m < group.len() ==> #[trigger] group@[m] < facets.len(),
    ensures
        ascending(nodes@),
        forall|node: u32| #[trigger] nodes@.contains(node) <==> group_node(facets@, group@, node),
{
    let mut all: Vec<u32> = Vec::new();
    let mut m: usize = 0;
    while m < group.len()
        invariant
            m <= group.len(),
            forall|node: u32| #[trigger] all@.contains(node) <==> group_node(facets@, group@.take(m as int), node),
        decreases group.len() - m,
    {
        let ghost before = all@;
        append_ids(&mut all, &facets[group[m]].nodes);
        proof {
            let added = facets@[group@[m as int] as int].nodes@;
            assert forall|node: u32| #[trigger] all@.contains(node) <==> group_node(facets@, group@.take(m + 1), node) by {
                if all@.contains(node) {
                    let q = choose|q: int| 0 <= q < all@.len() && all@[q] == node;
                    if q < before.len() {
                        assert(before[q] == node);
                        assert(before.contains(node));
                        let g = choose|g: int| 0 <= g < m && facets@[#[trigger] group@.take(m as int)[g] as int].nodes@.contains(node);
                        assert(group@.take(m + 1)[g] == group@.take(m as int)[g]);
                    } else {
                        assert(added[q - before.len()] == node);
                        assert(group@.take(m + 1)[m as int] == group@[m as int]);
                    }
                }
                if group_node(facets@, group@.take(m + 1), node) {
                    let g = choose|g: int| 0 <= g < m + 1 && facets@[#[trigger] group@.take(m + 1)[g] as int].nodes@.contains(node);
                    if g < m {
                        assert(group@.take(m as int)[g] == group@.take(m + 1)[g]);
                        assert(before.contains(node));
                        let q = choose|q: int| 0 <= q < before.len() && before[q] == node;
                        assert(all@[q] == node);
                    } else {
                        let q = choose|q: int| 0 <= q < added.len() && added[q] == node;
                        assert(all@[before.len() + q] == node);
                    }
                }
            }
        }
        m += 1;
    }
    assert(group@.take(m as int) =~= group@);
    unique(all)
}

/// The fit of one plane to all nodes of a group.
#[derive(Debug)]
pub struct PlaneFit {
    pub plane: PlaneFrame,
    pub maximum_deviation: Scalar,
    /// Whether each facet of the group keeps to the plane's direction.
    pub aligned: Vec<bool>,
}

pub open spec fn fit_accepted(policy: Policy, fit: PlaneFit) -> bool {
    &&& !policy.distance.lt(fit.maximum_deviation)
    &&& forall|k: int| 0 <= k < fit.aligned@.len() ==> #[trigger] fit.aligned@[k]
}

pub open spec fn patch_of(patch: Patch, facets: Seq<Facet>, group: Seq<usize>, fit: PlaneFit) -> bool {
    &&& patch.plane == fit.plane
    &&& patch.maximum_deviation == fit.maximum_deviation
    &&& patch.source_elements@.len() == group.len()
    &&& forall|m: int|
        0 <= m < group.len() ==> #[trigger] patch.source_elements@[m] == facets[group[m] as int].id
    &&& ascending(patch.source_nodes@)
    &&& forall|node: u32| #[trigger]
        patch.source_nodes@.contains(node) <==> group_node(facets, group, node)
    &&& regions_of(patch.stiffness_regions@, facets, group)
}

/// Makes a patch of a group where one plane fits it.
#[verifier::loop_isolation(false)]
pub fn build_patch(policy: &Policy, facets: &Vec<Facet>, group: &Vec<usize>, fit: Option<PlaneFit>) -> (r:
    Option<Patch>)
    requires
        facets_sorted(facets@),
        crate::ordering::ascending_indices(group@),
        forall|m: int| 0 <= m < group.len() ==> #[trigger] group@[m] < facets.len(),
    ensures
        match fit {
            Some(found) => match r {
                Some(patch) => fit_accepted(*policy, found) && patch_of(
                    patch,
                    facets@,
                    group@,
                    found,
                ),
                None => !fit_accepted(*policy, found),
            },
            None => r is None,
        },
{
    match fit {
        None => None,
        Some(found) => {
            if policy.distance.less(&found.maximum_deviation) {
                return None;
            }
            let mut k: usize = 0;
            while k < found.aligned.len()
                invariant
                    k <= found.aligned.len(),
                    forall|i: int| 0 <= i < k ==> #[trigger] found.aligned@[i],
                decreases found.aligned.len() - k,
            {
                if !found.aligned[k] {
                    return None;
                }
                k += 1;
            }
            let mut source_elements: Vec<u32> = Vec::new();
            let mut m: usize = 0;
            while m < group.len()
                invariant
                    m <= group.len(),
                    source_elements.len() == m,
                    forall|i: int|
                        0 <= i < m ==> #[trigger] source_elements@[i] == facets@[group@[i] as int].id,
                decreases group.len() - m,
            {
                source_elements.push(facets[group[m]].id);
                m += 1;
            }
            Some(
                Patch {
                    plane: found.plane,
                    source_elements,
                    source_nodes: group_nodes(facets, group),
                    stiffness_regions: stiffness_regions(facets, group),
                    maximum_deviation: found.maximum_deviation,
                },
            )
        },
    }
}

/// The facets of a group as a patch: the whole group on one plane.
pub open spec fn whole_patch(policy: Policy, fit: Option<PlaneFit>) -> bool {
    fit is Some && fit_accepted(policy, fit->0)
}

/// The source numbers of the facets of a group.
pub open spec fn facet_ids(facets: Seq<Facet>, group: Seq<usize>) -> Seq<u32> {
    Seq::new(group.len(), |m: int| facets[group[m] as int].id)
}

/// A patch for each facet of a group by itself.
pub open spec fn single_patches(
    patches: Seq<Patch>,
    policy: Policy,
    facets: Seq<Facet>,
    group: Seq<usize>,
    singles: Seq<Option<PlaneFit>>,
) -> bool {
    &&& patches.len() == group.len()
    &&& forall|m: int|
        0 <= m < group.len() ==> whole_patch(policy, singles[m]) && patch_of(
            #[trigger] patches[m],
            facets,
            seq![group[m]],
            singles[m]->0,
        )
}

/// What a group adds to the patches.
pub open spec fn group_patches(
    patches: Seq<Patch>,
    policy: Policy,
    facets: Seq<Facet>,
    group: Seq<usize>,
    whole: Option<PlaneFit>,
    singles: Seq<Option<PlaneFit>>,
) -> bool {
    if whole_patch(policy, whole) {
        patches.len() == 1 && patch_of(patches[0], facets, group, whole->0)
    } else {
        single_patches(patches, policy, facets, group, singles)
    }
}

/// Every facet of a group stands in a patch that the group adds.
pub proof fn group_keeps_facets(
    patches: Seq<Patch>,
    policy: Policy,
    facets: Seq<Facet>,
    group: Seq<usize>,
    whole: Option<PlaneFit>,
    singles: Seq<Option<PlaneFit>>,
    m: int,
)
    requires
        group_patches(patches, policy, facets, group, whole, singles),
        0 <= m < group.len(),
    ensures
        exists|p: int, k: int|
            0 <= p < patches.len() && 0 <= k < patches[p].source_elements@.len() && #[trigger] patches[p].source_elements@[k]
                == facets[group[m] as int].id,
{
    if whole_patch(policy, whole) {
        assert(patches[0].source_elements@[m] == facets[group[m] as int].id);
    } else {
        assert(patch_of(patches[m], facets, seq![group[m]], singles[m]->0));
        assert(patches[m].source_elements@[0] == facets[seq![group[m]][0] as int].id);
    }
}

/// The elements of each patch.
pub open spec fn patch_lists(patches: Seq<Patch>) -> Seq<Seq<u32>> {
    patches.map_values(|patch: Patch| patch.source_elements@)
}

pub open spec fn rejected_ids(rejected: Seq<Rejection>) -> Seq<u32> {
    rejected.map_values(|entry: Rejection| entry.element)
}

/// Every list of a report that names elements: those of the patches, the rejected ones
/// and those that are no shells.
pub open spec fn report_lists(report: Report) -> Seq<Seq<u32>> {
    patch_lists(report.patches@) + seq![rejected_ids(report.rejected@)] + seq![report.non_shell_elements@]
}

/// A report before any group.
pub open spec fn started(report: Report, policy: Policy, survey: ShellSurvey) -> bool {
    &&& report.policy == policy
    &&& report.patches@.len() == 0
    &&& report.unmerged_components@.len() == 0
    &&& report.rejected == survey.rejected
    &&& report.non_shell_elements == survey.non_shell_elements
}

/// A group was taken into a report.
pub open spec fn group_taken(
    before: Report,
    after: Report,
    facets: Seq<Facet>,
    group: Seq<usize>,
    whole: Option<PlaneFit>,
    singles: Seq<Option<PlaneFit>>,
) -> bool {
    &&& after.policy == before.policy
    &&& after.rejected == before.rejected
    &&& after.non_shell_elements == before.non_shell_elements
    &&& after.patches@.len() >= before.patches@.len()
    &&& after.patches@.take(before.patches@.len() as int) == before.patches@
    &&& group_patches(
        after.patches@.skip(before.patches@.len() as int),
        before.policy,
        facets,
        group,
        whole,
        singles,
    )
}

proof fn group_shares(
    patches: Seq<Patch>,
    policy: Policy,
    facets: Seq<Facet>,
    group: Seq<usize>,
    whole: Option<PlaneFit>,
    singles: Seq<Option<PlaneFit>>,
)
    requires
        facets_sorted(facets),
        ascending_indices(group),
        forall|m: int| 0 <= m < group.len() ==> #[trigger] group[m] < facets.len(),
        group_patches(patches, policy, facets, group, whole, singles),
    ensures
        shared_out(patch_lists(patches), facet_ids(facets, group)),
{
    let lists = patch_lists(patches);
    let ids = facet_ids(facets, group);
    assert forall|i: int, j: int| 0 <= i < j < ids.len() implies ids[i] < ids[j] by {
        assert(group[i] < group[j]);
        assert(facets[group[i] as int].id < facets[group[j] as int].id);
    }
    if whole_patch(policy, whole) {
        assert(patches[0].source_elements@ =~= ids);
        assert(lists =~= seq![ids]);
        list_shares(ids);
    } else {
        assert forall|m: int| 0 <= m < group.len() implies (#[trigger] lists[m]) == seq![ids[m]] by {
            assert(patch_of(patches[m], facets, seq![group[m]], singles[m]->0));
            assert(patches[m].source_elements@[0] == facets[seq![group[m]][0] as int].id);
            assert(lists[m] =~= seq![ids[m]]);
        }
        assert forall|id: u32| #[trigger] held(lists, id) <==> ids.contains(id) by {
            if held(lists, id) {
                let (p, k) = choose|p: int, k: int| #[trigger] held_at(lists, id, p, k);
                assert(ids[p] == id);
            }
            if ids.contains(id) {
                let m = choose|m: int| 0 <= m < ids.len() && ids[m] == id;
                assert(lists[m][0] == id);
                assert(held_at(lists, id, m, 0));
            }
        }
        assert forall|id: u32, p: int, k: int, q: int, l: int| #[trigger] held_at(lists, id, p, k) && #[trigger] held_at(lists, id, q, l) implies p == q && k == l by {
            assert(ids[p] == id && ids[q] == id);
        }
    }
}

/// Every element of a scheme stands in exactly one place of a finished report: in one
/// patch, among the rejected elements or among those that are no shells.
pub proof fn every_element_has_one_place(
    mesh: MeshData,
    policy: Policy,
    perimeters: Seq<Option<Vec<u32>>>,
    survey: ShellSurvey,
    rel: spec_fn(int, int) -> bool,
    groups: Seq<Vec<usize>>,
    wholes: Seq<Option<PlaneFit>>,
    singles: Seq<Seq<Option<PlaneFit>>>,
    reports: Seq<Report>,
)
    requires
        distinct_ids(mesh.elements@),
        survey.sorts(mesh, perimeters),
        components_of(groups, survey.facets@.len() as int, rel),
        reports.len() == groups.len() + 1,
        started(reports[0], policy, survey),
        forall|g: int|
            0 <= g < groups.len() ==> group_taken(
                reports[g],
                reports[g + 1],
                survey.facets@,
                (#[trigger] groups[g])@,
                wholes[g],
                singles[g],
            ),
    ensures
        shared_out(report_lists(reports.last()), element_ids(mesh.elements@)),
{
    let facets = survey.facets@;
    let n = groups.len() as int;
    let states = Seq::new(reports.len(), |c: int| patch_lists(reports[c].patches@));
    let shares = Seq::new(groups.len(), |g: int| facet_ids(facets, groups[g]@));
    report_keeps(reports, survey, groups, wholes, singles, n);
    assert forall|g: int| 0 <= g < shares.len() implies share_added(states[g], states[g + 1], #[trigger] shares[g]) by {
        assert(group_taken(reports[g], reports[g + 1], facets, groups[g]@, wholes[g], singles[g]));
        let before = reports[g].patches@;
        let after = reports[g + 1].patches@;
        let added = after.skip(before.len() as int);
        assert(groups[g]@.len() > 0);
        group_shares(added, reports[g].policy, facets, groups[g]@, wholes[g], singles[g]);
        assert(after =~= before + added) by {
            assert forall|p: int| 0 <= p < before.len() implies after[p] == before[p] by {
                assert(after.take(before.len() as int)[p] == before[p]);
            }
        }
        assert(states[g + 1] =~= states[g] + patch_lists(added));
    }
    assert forall|g: int, h: int, id: u32| 0 <= g < h < shares.len() implies !(#[trigger] shares[g].contains(id) && #[trigger] shares[h].contains(id)) by {
        if shares[g].contains(id) && shares[h].contains(id) {
            let k = choose|k: int| 0 <= k < shares[g].len() && shares[g][k] == id;
            let l = choose|l: int| 0 <= l < shares[h].len() && shares[h][l] == id;
            let (a, b) = (groups[g]@[k] as int, groups[h]@[l] as int);
            assert(groups[g]@[k] < facets.len() && groups[h]@[l] < facets.len());
            assert(a == b) by {
                if a < b {
                    assert(facets[a].id < facets[b].id);
                } else if b < a {
                    assert(facets[b].id < facets[a].id);
                }
            }
            connected_reflexive(facets.len() as int, rel, a);
            assert(connected(facets.len() as int, rel, groups[g]@[k] as int, groups[h]@[l] as int));
        }
    }
    shares_accumulate(states, shares, n);
    let report = reports.last();
    let patched = joined_ids(shares, n);
    let rejected = rejected_ids(report.rejected@);
    let aside = report.non_shell_elements@;
    let elements = mesh.elements@;
    let ids = element_ids(elements);
    assert forall|id: u32| #[trigger] patched.contains(id) <==> exists|e: int| 0 <= e < elements.len() && (#[trigger] elements[e]).id == id && facetable(mesh, elements[e], perimeters[e]) by {
        joined_has(shares, n, id);
        if patched.contains(id) {
            let g = choose|g: int| 0 <= g < n && (#[trigger] shares[g]).contains(id);
            let k = choose|k: int| 0 <= k < shares[g].len() && shares[g][k] == id;
            assert(groups[g]@[k] < facets.len());
            assert(facet_of(facets[groups[g]@[k] as int], mesh, perimeters));
            assert(elements[facets[groups[g]@[k] as int].element as int].id == id);
        }
        if exists|e: int| 0 <= e < elements.len() && (#[trigger] elements[e]).id == id && facetable(mesh, elements[e], perimeters[e]) {
            let e = choose|e: int| 0 <= e < elements.len() && (#[trigger] elements[e]).id == id && facetable(mesh, elements[e], perimeters[e]);
            assert(facet_listed(facets, e));
            let f = choose|f: int| 0 <= f < facets.len() && (#[trigger] facets[f]).element == e;
            assert(facet_of(facets[f], mesh, perimeters));
            assert(crate::connectivity::in_some_group(groups, f));
            let (g, k) = choose|g: int, k: int| 0 <= g < groups.len() && 0 <= k < groups[g]@.len() && #[trigger] groups[g]@[k] == f;
            assert(shares[g][k] == id);
            assert(shares[g].contains(id));
        }
    }
    assert forall|id: u32| #[trigger] rejected.contains(id) <==> shell_refused(mesh, perimeters, id) by {
        if rejected.contains(id) {
            let k = choose|k: int| 0 <= k < rejected.len() && rejected[k] == id;
            assert(report.rejected@[k].element == id);
        }
        if shell_refused(mesh, perimeters, id) {
            assert(rejection_listed(report.rejected@, id));
            let k = choose|k: int| 0 <= k < report.rejected@.len() && (#[trigger] report.rejected@[k]).element == id;
            assert(rejected[k] == id);
        }
    }
    assert forall|i: int, j: int| 0 <= i < rejected.len() && 0 <= j < rejected.len() && i != j implies rejected[i] != rejected[j] by {
        if i < j {
            assert(report.rejected@[i].element < report.rejected@[j].element);
        } else {
            assert(report.rejected@[j].element < report.rejected@[i].element);
        }
    }
    assert forall|d: int, e: int| 0 <= d < elements.len() && 0 <= e < elements.len() && (#[trigger] elements[d]).id == (#[trigger] elements[e]).id implies d == e by {
        if d < e {
            assert(elements[d].id != elements[e].id);
        } else if e < d {
            assert(elements[e].id != elements[d].id);
        }
    }
    list_shares(rejected);
    list_shares(aside);
    assert forall|id: u32| !(patched.contains(id) && #[trigger] rejected.contains(id)) by {}
    shares_join(patch_lists(report.patches@), patched, seq![rejected], rejected);
    assert forall|id: u32| !((patched + rejected).contains(id) && #[trigger] aside.contains(id)) by {
        contains_either(patched, rejected, id);
        if aside.contains(id) {
            assert(not_shell(elements, id));
        }
    }
    shares_join(patch_lists(report.patches@) + seq![rejected], patched + rejected, seq![aside], aside);
    assert forall|id: u32| (patched + rejected + aside).contains(id) <==> #[trigger] ids.contains(id) by {
        contains_either(patched, rejected, id);
        contains_either(patched + rejected, aside, id);
        assert(aside.contains(id) <==> not_shell(elements, id));
        if ids.contains(id) {
            let e = choose|e: int| 0 <= e < ids.len() && ids[e] == id;
            assert(elements[e].id == id);
            if !elements[e].shell() {
                assert(not_shell(elements, id));
            } else if !facetable(mesh, elements[e], perimeters[e]) {
                assert(shell_refused(mesh, perimeters, id));
            }
        }
        if patched.contains(id) {
            let e = choose|e: int| 0 <= e < elements.len() && (#[trigger] elements[e]).id == id && facetable(mesh, elements[e], perimeters[e]);
            assert(ids[e] == id);
        }
        if rejected.contains(id) {
            let e = choose|e: int| 0 <= e < elements.len() && (#[trigger] elements[e]).id == id && elements[e].shell() && !facetable(mesh, elements[e], perimeters[e]);
            assert(ids[e] == id);
        }
        if aside.contains(id) {
            let e = choose|e: int| 0 <= e < elements.len() && (#[trigger] elements[e]).id == id && !elements[e].shell();
            assert(ids[e] == id);
        }
    }
    assert forall|id: u32| #[trigger] held(report_lists(report), id) <==> ids.contains(id) by {
        assert((patched + rejected + aside).contains(id) <==> ids.contains(id));
    }
}

proof fn report_keeps(
    reports: Seq<Report>,
    survey: ShellSurvey,
    groups: Seq<Vec<usize>>,
    wholes: Seq<Option<PlaneFit>>,
    singles: Seq<Seq<Option<PlaneFit>>>,
    upto: int,
)
    requires
        0 <= upto <= groups.len(),
        reports.len() == groups.len() + 1,
        reports[0].rejected == survey.rejected,
        reports[0].non_shell_elements == survey.non_shell_elements,
        forall|g: int|
            0 <= g < groups.len() ==> group_taken(
                reports[g],
                reports[g + 1],
                survey.facets@,
                (#[trigger] groups[g])@,
                wholes[g],
                singles[g],
            ),
    ensures
        reports[upto].rejected == survey.rejected,
        reports[upto].non_shell_elements == survey.non_shell_elements,
    decreases upto,
{
    if upto > 0 {
        report_keeps(reports, survey, groups, wholes, singles, upto - 1);
        let g = upto - 1;
        assert(group_taken(reports[g], reports[g + 1], survey.facets@, groups[g]@, wholes[g], singles[g]));
    }
}

impl Report {
    /// A report on what was sorted out, before any group.
    pub fn start(policy: &Policy, survey: ShellSurvey) -> (r: (Report, Vec<Facet>))
        ensures
            started(r.0, *policy, survey),
            r.1 == survey.facets,
    {
        (
            Report {
                policy: *policy,
                patches: Vec::new(),
                rejected: survey.rejected,
                unmerged_components: Vec::new(),
                non_shell_elements: survey.non_shell_elements,
            },
            survey.facets,
        )
    }

    /// Takes a group of facets: as one patch where one plane fits it, else as a
    /// patch for each facet.
    #[verifier::loop_isolation(false)]
    pub fn take_group(
        &mut self,
        facets: &Vec<Facet>,
        group: &Vec<usize>,
        whole: Option<PlaneFit>,
        singles: Vec<Option<PlaneFit>>,
    ) -> (r: Result<(), &'static str>)
        requires
            facets_sorted(facets@),
            crate::ordering::ascending_indices(group@),
            forall|m: int| 0 <= m < group.len() ==> #[trigger] group@[m] < facets.len(),
            singles.len() == group.len(),
        ensures
            final(self).policy == old(self).policy,
            final(self).rejected == old(self).rejected,
            final(self).non_shell_elements == old(self).non_shell_elements,
            if whole_patch(old(self).policy, whole) {
                final(self).unmerged_components@ == old(self).unmerged_components@
            } else {
                &&& final(self).unmerged_components@.len() == old(self).unmerged_components@.len() + 1
                &&& final(self).unmerged_components@.drop_last() == old(self).unmerged_components@
                &&& final(self).unmerged_components@.last()@ == facet_ids(facets@, group@)
            },
            match r {
                Ok(()) => group_taken(*old(self), *final(self), facets@, group@, whole, singles@),
                Err(reason) => {
                    &&& reason@ == "failed to retain source facet"@
                    &&& !whole_patch(old(self).policy, whole)
                    &&& exists|m: int|
                        0 <= m < group.len() && !whole_patch(old(self).policy, #[trigger] singles@[m])
                },
            },
    {
        let ghost policy = self.policy;
        let ghost before = self.patches@;
        match build_patch(&self.policy, facets, group, whole) {
            Some(patch) => {
                self.patches.push(patch);
                assert(self.patches@.take(before.len() as int) =~= before);
                assert(self.patches@.skip(before.len() as int)[0] == patch);
                return Ok(());
            },
            None => {},
        }
        let mut ids: Vec<u32> = Vec::new();
        let mut k: usize = 0;
        while k < group.len()
            invariant
                k <= group.len(),
                ids.len() == k,
                forall|m: int| 0 <= m < k ==> #[trigger] ids@[m] == facets@[group@[m] as int].id,
            decreases group.len() - k,
        {
            ids.push(facets[group[k]].id);
            k += 1;
        }
        assert(ids@ =~= facet_ids(facets@, group@));
        self.unmerged_components.push(ids);
        assert(self.unmerged_components@.drop_last() =~= old(self).unmerged_components@);
        let ghost noted = self.unmerged_components@;
        let ghost wanted = singles@;
        let mut rest = singles;
        let mut n: usize = 0;
        while n < group.len()
            invariant
                n <= group.len(),
                rest@ == wanted.skip(n as int),
                self.policy == policy,
                self.rejected == old(self).rejected,
                self.non_shell_elements == old(self).non_shell_elements,
                self.unmerged_components@ == noted,
                self.patches@.len() == before.len() + n,
                self.patches@.take(before.len() as int) == before,
                forall|m: int| 0 <= m < n ==> whole_patch(policy, #[trigger] wanted[m]),
                forall|m: int|
                    0 <= m < n ==> patch_of(
                        #[trigger] self.patches@[before.len() + m],
                        facets@,
                        seq![group@[m]],
                        wanted[m]->0,
                    ),
            decreases group.len() - n,
        {
            let mut one: Vec<usize> = Vec::new();
            one.push(group[n]);
            assert(one@ =~= seq![group@[n as int]]);
            let single = rest.remove(0);
            assert(single == wanted[n as int]);
            assert(rest@ =~= wanted.skip(n + 1));
            match build_patch(&self.policy, facets, &one, single) {
                Some(patch) => {
                    let ghost earlier = self.patches@;
                    self.patches.push(patch);
                    assert(self.patches@.take(before.len() as int) =~= earlier.take(before.len() as int));
                },
                None => {
                    assert(!whole_patch(policy, wanted[n as int]));
                    return Err("failed to retain source facet");
                },
            }
            n += 1;
        }
        proof {
            let added = self.patches@.skip(before.len() as int);
            assert forall|m: int| 0 <= m < group.len() implies whole_patch(policy, wanted[m]) && patch_of(
                #[trigger] added[m],
                facets@,
                seq![group@[m]],
                wanted[m]->0,
            ) by {
                assert(added[m] == self.patches@[before.len() + m]);
            }
        }
        Ok(())
    }
}

/// A policy is usable exactly with a positive angle below a quarter of the half turn and a
/// positive precision that is not above the distance.
pub proof fn plane_policies_are_graded(policy: Policy)
    ensures
        policy.valid() ==> Scalar::spec_zero().lt(policy.angle) && policy.angle.lt(Scalar { bits: 0x3fe9_21fb_5444_2d18 })
            && Scalar::spec_zero().lt(policy.precision) && policy.precision.le(policy.distance) && policy.distance.finite(),
        Scalar::spec_zero().lt(policy.angle) && policy.angle.lt(Scalar { bits: 0x3fe9_21fb_5444_2d18 })
            && Scalar::spec_zero().lt(policy.precision) && policy.precision.finite() && policy.precision.le(policy.distance)
            && policy.distance.finite() ==> policy.valid(),
{
}

/// A perimeter edge joins a node with the next one, whichever way round, and the last with the
/// first.
pub proof fn perimeters_join_neighbours(nodes: Seq<u32>, i: int)
    requires
        0 <= i < nodes.len(),
    ensures
        ({
            let edge = perimeter_edge(nodes, i);
            let next = if i + 1 < nodes.len() {
                nodes[i + 1]
            } else {
                nodes[0]
            };
            &&& edge.0 <= edge.1
            &&& (edge.0 == nodes[i] && edge.1 == next) || (edge.0 == next && edge.1 == nodes[i])
        }),
{
}

/// A plane is taken for a group exactly when no node is off it by more than the distance and
/// every facet keeps to its direction.
pub proof fn fitting_planes_hold_all_facets(policy: Policy, fit: PlaneFit)
    ensures
        fit_accepted(policy, fit) ==> !policy.distance.lt(fit.maximum_deviation) && forall|k: int|
            0 <= k < fit.aligned@.len() ==> #[trigger] fit.aligned@[k],
        fit.maximum_deviation.le(policy.distance) && (forall|k: int| 0 <= k < fit.aligned@.len() ==> #[trigger] fit.aligned@[k])
            ==> fit_accepted(policy, fit),
{
}

/// An element of a patch is in the region of its own stiffness and in no other.
pub proof fn regions_part_by_stiffness(regions: Seq<StiffnessRegion>, facets: Seq<Facet>, group: Seq<usize>, m: int, r: int)
    requires
        regions_of(regions, facets, group),
        facets_sorted(facets),
        forall|k: int| 0 <= k < group.len() ==> #[trigger] group[k] < facets.len(),
        0 <= m < group.len(),
        0 <= r < regions.len(),
    ensures
        regions[r].elements@.contains(facets[group[m] as int].id) <==> regions[r].stiffness == facets[group[m] as int].stiffness,
{
    let facet = facets[group[m] as int];
    assert(region_holds(regions, facet.stiffness, facet.id));
    let q = choose|q: int|
        0 <= q < regions.len() && (#[trigger] regions[q]).stiffness == facet.stiffness && regions[q].elements@.contains(facet.id);
    if regions[r].stiffness == facet.stiffness && r != q {
        if r < q {
            assert(regions[r].stiffness < regions[q].stiffness);
        } else {
            assert(regions[q].stiffness < regions[r].stiffness);
        }
    }
    if regions[r].elements@.contains(facet.id) {
        assert(member_with(facets, group, regions[r].stiffness, facet.id));
        let k = choose|k: int|
            0 <= k < group.len() && facets[#[trigger] group[k] as int].stiffness == regions[r].stiffness && facets[group[k] as int].id
                == facet.id;
        let (a, b) = (group[k] as int, group[m] as int);
        if a < b {
            assert(facets[a].id < facets[b].id);
        } else if b < a {
            assert(facets[b].id < facets[a].id);
        }
    }
}

/// A facet keeps the number, the stiffness and the nodes of its shell.
pub proof fn facets_are_their_shells(facet: Facet, mesh: MeshData, perimeters: Seq<Option<Vec<u32>>>, node: u32)
    requires
        facet_of(facet, mesh, perimeters),
    ensures
        ({
            let element = mesh.elements@[facet.element as int];
            &&& element.shell()
            &&& facet.id == element.id
            &&& facet.stiffness == element.stiff_id
            &&& facet.nodes@.len() == element.nodes@.len()
            &&& facet.nodes@.contains(node) ==> element.nodes@.contains(node) && mesh.nodes@.dom().contains(node)
        }),
{
    if facet.nodes@.contains(node) {
        let element = mesh.elements@[facet.element as int];
        let k = choose|k: int| 0 <= k < facet.nodes@.len() && facet.nodes@[k] == node;
        assert(element.nodes@.contains(facet.nodes@[k]));
        let m = choose|m: int| 0 <= m < element.nodes@.len() && element.nodes@[m] == node;
        assert(placed(mesh, element.nodes@[m]));
    }
}

} // verus!
