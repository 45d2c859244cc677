//! Straight axes and the surfaces they meet. None of this assigns mechanical ties.
use vstd::prelude::*;
use crate::geometry::utils::{name_of, NodeNames};
use crate::input::{ElementData, Point};
use crate::models::{BarConstraint, MacroBar};
use crate::ordering::{append_ids, ascending, ascending_indices, before_by, copy_ids, copy_indices, lists_distinct, lists_distinct_indices, lists_id, lists_index, ordered_by, pushed_contains, sorted_by_keys, sorted_indices, stable_order, unique, unique_indices};
use crate::registry::{Lists, Registry};
use crate::scalar::Scalar;
use crate::table::HashTable;
use crate::text::{is_text, is_text_before, text_before, text_order_total, text_order_transitive};

verus! {

/// 1e-8
pub const PRECISION: u64 = 0x3e45_798e_e230_8c3a;

/// 1e-7
pub const AXIS_RESIDUAL: u64 = 0x3e7a_d7f2_9abc_af48;

/// Greatest gap between a bar and a plane at which a search rests: 1e-9.
pub const PLANE_REST: u64 = 0x3e11_2e0b_e826_d695;

#[derive(Debug)]
pub struct RejectedSurfaceCrossing {
    pub panel_id: u32,
    pub source_element_ids: Vec<u32>,
    pub point: Point,
    pub t: Scalar,
    pub reason: String,
}

/// Measurements of the final geometry, not a claim about mechanical contact.
#[derive(Debug)]
pub struct MissingSurfaceContact {
    pub node_id: u32,
    pub panel_id: u32,
    pub inferred: bool,
    pub source_bar_element_ids: Vec<u32>,
    pub anchors: Vec<SurfaceAnchorMeasurement>,
}

#[derive(Debug, Clone, Copy)]
pub struct SurfaceAnchorMeasurement {
    pub point: Point,
    pub plane_distance: Scalar,
    pub projection_inside: bool,
    pub boundary_distance: Scalar,
    pub nearest_constraint_distance: Option<Scalar>,
}

#[derive(Debug)]
pub struct CoupledPlaneSearch {
    pub iterations: usize,
    pub requested_incidence_count: usize,
    pub retained_incidence_count: usize,
    pub relaxed_incidence_pairs: Vec<[u32; 2]>,
    pub frozen_panel_ids: Vec<u32>,
    pub final_axis_residual: Scalar,
    pub final_plane_residual: Scalar,
    pub failure_reason: Option<String>,
}

impl Default for CoupledPlaneSearch {
    fn default() -> (r: CoupledPlaneSearch)
        ensures
            r.iterations == 0,
            r.requested_incidence_count == 0,
            r.retained_incidence_count == 0,
            r.relaxed_incidence_pairs@.len() == 0,
            r.frozen_panel_ids@.len() == 0,
            r.final_axis_residual == Scalar::spec_zero(),
            r.final_plane_residual == Scalar::spec_zero(),
            r.failure_reason is None,
    {
        CoupledPlaneSearch {
            iterations: 0,
            requested_incidence_count: 0,
            retained_incidence_count: 0,
            relaxed_incidence_pairs: Vec::new(),
            frozen_panel_ids: Vec::new(),
            final_axis_residual: Scalar::zero(),
            final_plane_residual: Scalar::zero(),
            failure_reason: None,
        }
    }
}

#[derive(Debug)]
pub struct RotationTrial {
    pub proposed_panels: usize,
    pub attempted_candidates: usize,
    pub accepted: bool,
    pub reason: String,
    pub baseline_missing_incidences: usize,
    pub candidate_missing_incidences: Option<usize>,
    pub max_rotation_radians: Scalar,
}

/// Panels listed for a node.
#[derive(Debug)]
pub struct NodePanels {
    pub node: u32,
    pub panel_ids: Vec<u32>,
}

/// Nodes that were rejected for one reason.
#[derive(Debug)]
pub struct Rejections {
    pub reason: String,
    pub nodes: Vec<u32>,
}

/// The outcome of attaching bars to surfaces. Lists by node are in the order in
/// which the nodes were handled.
#[derive(Debug)]
pub struct BarContactSummary {
    pub fitted_axes: usize,
    /// Geometric hypotheses, separate from the incidence of source elements.
    pub inferred_panel_ids_by_node: Vec<NodePanels>,
    pub ambiguous_panel_ids_by_node: Vec<NodePanels>,
    pub anchor_groups: usize,
    pub attached_groups: usize,
    pub partial_groups: usize,
    pub unresolved_panel_ids_by_node: Vec<NodePanels>,
    pub moved_groups: usize,
    pub rejected_node_ids: Vec<u32>,
    pub rejection_reasons: Vec<Rejections>,
    pub surface_crossings: usize,
    pub rejected_crossing_details: Vec<RejectedSurfaceCrossing>,
    pub unresolved_bar_junctions: Vec<u32>,
    pub numerical_residual_nodes: Vec<u32>,
}

impl BarContactSummary {
    pub fn new() -> (r: BarContactSummary)
        ensures
            r.fitted_axes == 0,
            r.inferred_panel_ids_by_node@.len() == 0,
            r.ambiguous_panel_ids_by_node@.len() == 0,
            r.anchor_groups == 0,
            r.attached_groups == 0,
            r.partial_groups == 0,
            r.unresolved_panel_ids_by_node@.len() == 0,
            r.moved_groups == 0,
            r.rejected_node_ids@.len() == 0,
            r.rejection_reasons@.len() == 0,
            r.surface_crossings == 0,
            r.rejected_crossing_details@.len() == 0,
            r.unresolved_bar_junctions@.len() == 0,
            r.numerical_residual_nodes@.len() == 0,
    {
        BarContactSummary {
            fitted_axes: 0,
            inferred_panel_ids_by_node: Vec::new(),
            ambiguous_panel_ids_by_node: Vec::new(),
            anchor_groups: 0,
            attached_groups: 0,
            partial_groups: 0,
            unresolved_panel_ids_by_node: Vec::new(),
            moved_groups: 0,
            rejected_node_ids: Vec::new(),
            rejection_reasons: Vec::new(),
            surface_crossings: 0,
            rejected_crossing_details: Vec::new(),
            unresolved_bar_junctions: Vec::new(),
            numerical_residual_nodes: Vec::new(),
        }
    }
}

pub open spec fn distinct_reasons(list: Seq<Rejections>) -> bool {
    forall|a: int, b: int|
        0 <= a < b < list.len() ==> (#[trigger] list[a]).reason@ != (#[trigger] list[b]).reason@
}

/// What a rejection adds to the reasons.
pub open spec fn reason_added(before: Seq<Rejections>, after: Seq<Rejections>, node: u32, reason: Seq<char>) -> bool {
    if exists|k: int| 0 <= k < before.len() && (#[trigger] before[k]).reason@ == reason {
        &&& after.len() == before.len()
        &&& forall|k: int|
            0 <= k < before.len() ==> (#[trigger] after[k]).reason@ == before[k].reason@ && after[k].nodes@
                == if before[k].reason@ == reason {
                before[k].nodes@.push(node)
            } else {
                before[k].nodes@
            }
    } else {
        &&& after.len() == before.len() + 1
        &&& after.drop_last() == before
        &&& after.last().reason@ == reason
        &&& after.last().nodes@ == seq![node]
    }
}

/// Everything but the rejections stays as it was.
pub open spec fn only_rejections(before: BarContactSummary, after: BarContactSummary) -> bool {
    &&& after.fitted_axes == before.fitted_axes
    &&& after.inferred_panel_ids_by_node == before.inferred_panel_ids_by_node
    &&& after.ambiguous_panel_ids_by_node == before.ambiguous_panel_ids_by_node
    &&& after.anchor_groups == before.anchor_groups
    &&& after.attached_groups == before.attached_groups
    &&& after.partial_groups == before.partial_groups
    &&& after.unresolved_panel_ids_by_node == before.unresolved_panel_ids_by_node
    &&& after.moved_groups == before.moved_groups
    &&& after.surface_crossings == before.surface_crossings
    &&& after.rejected_crossing_details == before.rejected_crossing_details
    &&& after.unresolved_bar_junctions == before.unresolved_bar_junctions
    &&& after.numerical_residual_nodes == before.numerical_residual_nodes
}

/// Records that a node could not be attached, and why.
#[verifier::loop_isolation(false)]
pub fn reject(stats: &mut BarContactSummary, node: u32, reason: &str)
    requires
        distinct_reasons(old(stats).rejection_reasons@),
    ensures
        only_rejections(*old(stats), *final(stats)),
        final(stats).rejected_node_ids@ == old(stats).rejected_node_ids@.push(node),
        reason_added(old(stats).rejection_reasons@, final(stats).rejection_reasons@, node, reason@),
        distinct_reasons(final(stats).rejection_reasons@),
{
    stats.rejected_node_ids.push(node);
    let ghost before = stats.rejection_reasons@;
    let mut k: usize = 0;
    while k < stats.rejection_reasons.len()
        invariant
            k <= before.len(),
            stats.rejection_reasons@ == before,
            only_rejections(*old(stats), *stats),
            stats.rejected_node_ids@ == old(stats).rejected_node_ids@.push(node),
            forall|m: int| 0 <= m < k ==> (#[trigger] before[m]).reason@ != reason@,
        decreases before.len() - k,
    {
        if is_text(stats.rejection_reasons[k].reason.as_str(), reason) {
            let mut entry = stats.rejection_reasons.remove(k);
            entry.nodes.push(node);
            stats.rejection_reasons.insert(k, entry);
            proof {
                let after = stats.rejection_reasons@;
                assert(before[k as int].reason@ == reason@);
                assert forall|m: int| 0 <= m < before.len() implies (#[trigger] after[m]).reason@ == before[m].reason@ && after[m].nodes@ == if before[m].reason@ == reason@ { before[m].nodes@.push(node) } else { before[m].nodes@ } by {
                    if m < k {
                        assert(before[m].reason@ != reason@);
                    } else if m > k {
                        assert(before[k as int].reason@ != before[m].reason@);
                    }
                }
                assert forall|a: int, b: int| 0 <= a < b < after.len() implies (#[trigger] after[a]).reason@ != (#[trigger] after[b]).reason@ by {
                    assert(before[a].reason@ != before[b].reason@);
                }
            }
            return;
        }
        k += 1;
    }
    let mut nodes: Vec<u32> = Vec::new();
    nodes.push(node);
    assert(nodes@ =~= seq![node]);
    stats.rejection_reasons.push(Rejections { reason: reason.to_string(), nodes });
    proof {
        let after = stats.rejection_reasons@;
        assert(after.drop_last() =~= before);
        assert forall|a: int, b: int| 0 <= a < b < after.len() implies (#[trigger] after[a]).reason@ != (#[trigger] after[b]).reason@ by {
            assert(after[a] == before[a]);
            if b < before.len() {
                assert(after[b] == before[b]);
            } else {
                assert(before[a].reason@ != reason@);
            }
        }
    }
}

/// The panels that meet at each node.
#[derive(Debug)]
pub struct PanelIncidence {
    slots: Registry,
    sets: Vec<Vec<usize>>,
}

impl View for PanelIncidence {
    type V = Map<u32, Seq<usize>>;

    closed spec fn view(&self) -> Map<u32, Seq<usize>> {
        Map::new(
            |node: u32| self.slots@.dom().contains(node as u64),
            |node: u32| self.sets@[self.slots@[node as u64] as int]@,
        )
    }
}

impl PanelIncidence {
    pub closed spec fn well_formed(&self) -> bool {
        &&& forall|x: u64| #[trigger] self.slots@.dom().contains(x) ==> self.slots@[x] < self.sets@.len()
        &&& forall|x: u64, y: u64| #[trigger]
            self.slots@.dom().contains(x) && #[trigger] self.slots@.dom().contains(y) && x != y
                ==> self.slots@[x] != self.slots@[y]
    }

    pub fn new() -> (r: PanelIncidence)
        ensures
            r.well_formed(),
            r@ == Map::<u32, Seq<usize>>::empty(),
    {
        let r = PanelIncidence { slots: Registry::new(), sets: Vec::new() };
        assert(r@ =~= Map::<u32, Seq<usize>>::empty());
        r
    }

    pub fn get(&self, node: u32) -> (r: Option<&Vec<usize>>)
        requires
            self.well_formed(),
        ensures
            match r {
                Some(list) => self@.dom().contains(node) && self@[node] == list@,
                None => !self@.dom().contains(node),
            },
    {
        match self.slots.get(node as u64) {
            Some(slot) => Some(&self.sets[slot]),
            None => None,
        }
    }

    /// Sets what meets at a node.
    pub fn set(&mut self, node: u32, list: Vec<usize>)
        requires
            old(self).well_formed(),
        ensures
            final(self).well_formed(),
            final(self)@ == old(self)@.insert(node, list@),
    {
        match self.slots.get(node as u64) {
            Some(slot) => {
                self.sets.set(slot, list);
                assert forall|other: u32| self.slots@.dom().contains(other as u64) && other != node implies self.sets@[#[trigger] self.slots@[other as u64] as int] == old(self).sets@[self.slots@[other as u64] as int] by {
                    assert(self.slots@.dom().contains(node as u64));
                    assert(other as u64 != node as u64);
                }
            },
            None => {
                let slot: usize = self.sets.len();
                self.sets.push(list);
                self.slots.insert(node as u64, slot);
            },
        }
        assert(self@ =~= old(self)@.insert(node, list@));
    }
}

/// The last panel that lists an element.
pub open spec fn last_panel(sources: Seq<Vec<u32>>, id: u32, p: int) -> bool {
    &&& 0 <= p < sources.len()
    &&& sources[p]@.contains(id)
    &&& forall|q: int| p < q < sources.len() ==> !(#[trigger] sources[q])@.contains(id)
}

/// An element of the panel has the node.
pub open spec fn panel_at_node(
    elements: Seq<ElementData>,
    sources: Seq<Vec<u32>>,
    names: Map<u32, u32>,
    node: u32,
    p: usize,
) -> bool {
    exists|e: int, i: int|
        0 <= e < elements.len() && 0 <= i < elements[e].nodes@.len() && last_panel(
            sources,
            elements[e].id,
            p as int,
        ) && name_of(names, #[trigger] elements[e].nodes@[i]) == node
}

pub open spec fn source_incident(
    incident: Map<u32, Seq<usize>>,
    elements: Seq<ElementData>,
    sources: Seq<Vec<u32>>,
    names: Map<u32, u32>,
) -> bool {
    forall|node: u32| #[trigger] node_incident(incident, elements, sources, names, node)
}

/// A node is listed where a panel meets it, with all panels that do, ascending.
pub open spec fn node_incident(
    incident: Map<u32, Seq<usize>>,
    elements: Seq<ElementData>,
    sources: Seq<Vec<u32>>,
    names: Map<u32, u32>,
    node: u32,
) -> bool {
    &&& incident.dom().contains(node) <==> exists|p: usize| #[trigger]
        panel_at_node(elements, sources, names, node, p)
    &&& incident.dom().contains(node) ==> ascending_indices(incident[node]) && forall|p: usize| #[trigger]
        incident[node].contains(p) <==> panel_at_node(elements, sources, names, node, p)
}

#[verifier::loop_isolation(false)]
fn owner_table(sources: &Vec<Vec<u32>>) -> (r: HashTable)
    ensures
        forall|id: u32|
            #![trigger r@.dom().contains(id as u64)]
            (r@.dom().contains(id as u64) ==> last_panel(sources@, id, r@[id as u64] as int)) && (
            !r@.dom().contains(id as u64) ==> forall|p: int| !#[trigger] last_panel(sources@, id, p)),
{
    let mut r = HashTable::new();
    let mut p: usize = 0;
    while p < sources.len()
        invariant
            p <= sources@.len(),
            forall|id: u32|
                #![trigger r@.dom().contains(id as u64)]
                (r@.dom().contains(id as u64) ==> last_before(sources@, id, r@[id as u64] as int, p as int)) && (!r@.dom().contains(id as u64) ==> listed_nowhere(sources@, id, p as int)),
        decreases sources@.len() - p,
    {
        let list = &sources[p];
        let ghost before = r@;
        let mut k: usize = 0;
        while k < list.len()
            invariant
                p < sources@.len(),
                *list == sources@[p as int],
                k <= list@.len(),
                forall|id: u32|
                    #![trigger r@.dom().contains(id as u64)]
                    if list@.take(k as int).contains(id) {
                        r@.dom().contains(id as u64) && r@[id as u64] == p
                    } else {
                        r@.dom().contains(id as u64) == before.dom().contains(id as u64) && (before.dom().contains(id as u64) ==> r@[id as u64] == before[id as u64])
                    },
            decreases list@.len() - k,
        {
            let ghost so_far = r@;
            r.insert(list[k] as u64, p);
            proof {
                let longer = list@.take(k + 1);
                assert(longer =~= list@.take(k as int).push(list@[k as int]));
                assert forall|id: u32|
                    #![trigger r@.dom().contains(id as u64)]
                    if longer.contains(id) {
                        r@.dom().contains(id as u64) && r@[id as u64] == p
                    } else {
                        r@.dom().contains(id as u64) == before.dom().contains(id as u64) && (before.dom().contains(id as u64) ==> r@[id as u64] == before[id as u64])
                    } by {
                    assert(so_far.dom().contains(id as u64) == so_far.dom().contains(id as u64));
                    if id == list@[k as int] {
                        assert(longer[k as int] == id);
                    } else {
                        if longer.contains(id) {
                            let m = choose|m: int| 0 <= m < longer.len() && longer[m] == id;
                            assert(list@.take(k as int)[m] == id);
                        }
                        if list@.take(k as int).contains(id) {
                            let m = choose|m: int| 0 <= m < k && list@.take(k as int)[m] == id;
                            assert(longer[m] == id);
                        }
                    }
                }
            }
            k += 1;
        }
        assert(list@.take(k as int) =~= list@);
        proof {
            assert forall|id: u32|
                #![trigger r@.dom().contains(id as u64)]
                (r@.dom().contains(id as u64) ==> last_before(sources@, id, r@[id as u64] as int, p + 1)) && (!r@.dom().contains(id as u64) ==> listed_nowhere(sources@, id, p + 1)) by {
                assert(before.dom().contains(id as u64) == before.dom().contains(id as u64));
                if list@.contains(id) {
                    assert(last_before(sources@, id, p as int, p + 1));
                } else {
                    if before.dom().contains(id as u64) {
                        assert(last_before(sources@, id, before[id as u64] as int, p as int));
                    } else {
                        assert(listed_nowhere(sources@, id, p as int));
                    }
                }
            }
        }
        p += 1;
    }
    proof {
        assert forall|id: u32|
            #![trigger r@.dom().contains(id as u64)]
            (r@.dom().contains(id as u64) ==> last_panel(sources@, id, r@[id as u64] as int)) && (!r@.dom().contains(id as u64) ==> forall|q: int| !#[trigger] last_panel(sources@, id, q)) by {
            if r@.dom().contains(id as u64) {
                assert(last_before(sources@, id, r@[id as u64] as int, p as int));
            } else {
                assert(listed_nowhere(sources@, id, p as int));
            }
        }
    }
    r
}

spec fn last_before(sources: Seq<Vec<u32>>, id: u32, p: int, upto: int) -> bool {
    &&& 0 <= p < upto
    &&& sources[p]@.contains(id)
    &&& forall|q: int| p < q < upto ==> !(#[trigger] sources[q])@.contains(id)
}

spec fn listed_nowhere(sources: Seq<Vec<u32>>, id: u32, upto: int) -> bool {
    forall|q: int| 0 <= q < upto ==> !(#[trigger] sources[q])@.contains(id)
}

/// The panel of each element, where it has one.
spec fn owned(owners: Seq<Option<usize>>, elements: Seq<ElementData>, sources: Seq<Vec<u32>>) -> bool {
    &&& owners.len() == elements.len()
    &&& forall|e: int, p: usize|
        0 <= e < elements.len() ==> (#[trigger] last_panel(sources, (#[trigger] elements[e]).id, p as int) <==> owners[e] == Some(p))
}

#[verifier::loop_isolation(false)]
fn element_owners(elements: &Vec<ElementData>, sources: &Vec<Vec<u32>>) -> (r: Vec<Option<usize>>)
    ensures
        owned(r@, elements@, sources@),
{
    let table = owner_table(sources);
    let mut r: Vec<Option<usize>> = Vec::new();
    let mut e: usize = 0;
    while e < elements.len()
        invariant
            e <= elements@.len(),
            r@.len() == e,
            forall|d: int, p: usize|
                0 <= d < e ==> (#[trigger] last_panel(sources@, (#[trigger] elements@[d]).id, p as int) <==> r@[d] == Some(p)),
        decreases elements@.len() - e,
    {
        let id: u32 = elements[e].id;
        let owner = table.get(id as u64);
        proof {
            assert(table@.dom().contains(id as u64) == table@.dom().contains(id as u64));
            assert forall|p: usize| #[trigger] last_panel(sources@, id, p as int) <==> owner == Some(p) by {
                if last_panel(sources@, id, p as int) {
                    let q = owner->0;
                    assert(owner is Some);
                    assert(last_panel(sources@, id, q as int));
                    if p < q {
                        assert(!sources@[q as int]@.contains(id));
                    } else if q < p {
                        assert(!sources@[p as int]@.contains(id));
                    }
                }
            }
        }
        r.push(owner);
        e += 1;
    }
    r
}

spec fn panel_listed(
    elements: Seq<ElementData>,
    owners: Seq<Option<usize>>,
    names: Map<u32, u32>,
    node: u32,
    p: usize,
    done: int,
    part: int,
) -> bool {
    exists|e: int, i: int|
        0 <= e < elements.len() && 0 <= i < elements[e].nodes@.len() && (e < done || (e == done && i < part))
            && owners[e] == Some(p) && name_of(names, #[trigger] elements[e].nodes@[i]) == node
}

/// Reads from the source which panels meet at which nodes.
#[verifier::rlimit(60)]
#[verifier::loop_isolation(false)]
pub fn source_incidence(elements: &Vec<ElementData>, sources: &Vec<Vec<u32>>, names: &NodeNames) -> (r:
    PanelIncidence)
    ensures
        r.well_formed(),
        source_incident(r@, elements@, sources@, names@),
{
    let owners = element_owners(elements, sources);
    let mut lists = Lists::new();
    let mut nodes: Vec<u32> = Vec::new();
    let mut e: usize = 0;
    while e < elements.len()
        invariant
            e <= elements@.len(),
            lists.well_formed(),
            forall|node: u32, p: usize|
                #![trigger lists.at(node as u64).contains(p)]
                lists.at(node as u64).contains(p) <==> panel_listed(elements@, owners@, names@, node, p, e as int, 0),
            forall|node: u32| #[trigger] nodes@.contains(node) <==> lists.at(node as u64).len() > 0,
        decreases elements@.len() - e,
    {
        match owners[e] {
            Some(p) => {
                let own = &elements[e].nodes;
                let mut i: usize = 0;
                while i < own.len()
                    invariant
                        e < elements@.len(),
                        own@ == elements@[e as int].nodes@,
                        owners@[e as int] == Some(p),
                        i <= own@.len(),
                        lists.well_formed(),
                        forall|node: u32, q: usize|
                            #![trigger lists.at(node as u64).contains(q)]
                            lists.at(node as u64).contains(q) <==> panel_listed(elements@, owners@, names@, node, q, e as int, i as int),
                        forall|node: u32| #[trigger] nodes@.contains(node) <==> lists.at(node as u64).len() > 0,
                    decreases own@.len() - i,
                {
                    let name: u32 = names.canonical(own[i]);
                    let ghost before = lists;
                    let ghost before_nodes = nodes@;
                    lists.push(name as u64, p);
                    nodes.push(name);
                    proof {
                        assert forall|node: u32, q: usize|
                            #![trigger lists.at(node as u64).contains(q)]
                            lists.at(node as u64).contains(q) <==> panel_listed(elements@, owners@, names@, node, q, e as int, i + 1) by {
                            listing_step(before.at(node as u64), lists.at(node as u64), elements@, owners@, names@, node, q, e as int, i as int, p, name);
                        }
                        assert forall|node: u32| #[trigger] nodes@.contains(node) <==> lists.at(node as u64).len() > 0 by {
                            if node == name {
                                assert(nodes@[before_nodes.len() as int] == name);
                            } else {
                                assert(lists.at(node as u64) == before.at(node as u64));
                                assert(before_nodes.contains(node) <==> before.at(node as u64).len() > 0);
                                if nodes@.contains(node) {
                                    let m = choose|m: int| 0 <= m < nodes@.len() && nodes@[m] == node;
                                    assert(before_nodes[m] == node);
                                }
                                if before_nodes.contains(node) {
                                    let m = choose|m: int| 0 <= m < before_nodes.len() && before_nodes[m] == node;
                                    assert(nodes@[m] == node);
                                }
                            }
                        }
                    }
                    i += 1;
                }
                proof {
                    assert forall|node: u32, q: usize|
                        #![trigger lists.at(node as u64).contains(q)]
                        lists.at(node as u64).contains(q) <==> panel_listed(elements@, owners@, names@, node, q, e + 1, 0) by {
                        listing_done(elements@, owners@, names@, node, q, e as int);
                    }
                }
            },
            None => {
                proof {
                    assert forall|node: u32, q: usize|
                        #![trigger lists.at(node as u64).contains(q)]
                        lists.at(node as u64).contains(q) <==> panel_listed(elements@, owners@, names@, node, q, e + 1, 0) by {
                        listing_skip(elements@, owners@, names@, node, q, e as int);
                    }
                }
            },
        }
        e += 1;
    }
    let ghost seen = nodes@;
    let distinct = unique(nodes);
    let mut r = PanelIncidence::new();
    let mut k: usize = 0;
    while k < distinct.len()
        invariant
            k <= distinct@.len(),
            r.well_formed(),
            forall|node: u32| #[trigger] r@.dom().contains(node) <==> distinct@.take(k as int).contains(node),
            forall|node: u32| #[trigger] r@.dom().contains(node) ==> lists_distinct_indices(r@[node], lists.at(node as u64)),
        decreases distinct@.len() - k,
    {
        let node: u32 = distinct[k];
        let list = copy_indices(lists.get(node as u64));
        let ghost before = r@;
        r.set(node, unique_indices(list));
        proof {
            let longer = distinct@.take(k + 1);
            assert(longer =~= distinct@.take(k as int).push(node));
            assert forall|other: u32| #[trigger] r@.dom().contains(other) <==> longer.contains(other) by {
                if other == node {
                    assert(longer[k as int] == node);
                } else {
                    assert(before.dom().contains(other) <==> distinct@.take(k as int).contains(other));
                    if longer.contains(other) {
                        let m = choose|m: int| 0 <= m < longer.len() && longer[m] == other;
                        assert(distinct@.take(k as int)[m] == other);
                    }
                    if distinct@.take(k as int).contains(other) {
                        let m = choose|m: int| 0 <= m < k && distinct@.take(k as int)[m] == other;
                        assert(longer[m] == other);
                    }
                }
            }
            assert forall|other: u32| #[trigger] r@.dom().contains(other) implies lists_distinct_indices(r@[other], lists.at(other as u64)) by {
                if other != node {
                    assert(before.dom().contains(other));
                }
            }
        }
        k += 1;
    }
    assert(distinct@.take(k as int) =~= distinct@);
    proof {
        assert forall|node: u32| #[trigger] node_incident(r@, elements@, sources@, names@, node) by {
            assert forall|p: usize| panel_listed(elements@, owners@, names@, node, p, elements@.len() as int, 0) == #[trigger] panel_at_node(elements@, sources@, names@, node, p) by {
                listing_is_incidence(elements@, owners@, sources@, names@, node, p);
            }
            assert(r@.dom().contains(node) <==> distinct@.contains(node));
            assert(distinct@.contains(node) <==> seen.contains(node));
            assert(seen.contains(node) <==> lists.at(node as u64).len() > 0);
            if r@.dom().contains(node) {
                let p = lists.at(node as u64)[0];
                assert(lists.at(node as u64).contains(p));
                assert(panel_at_node(elements@, sources@, names@, node, p));
                assert forall|q: usize| #[trigger] r@[node].contains(q) <==> panel_at_node(elements@, sources@, names@, node, q) by {
                    assert(r@[node].contains(q) <==> lists.at(node as u64).contains(q));
                }
            }
            if exists|p: usize| #[trigger] panel_at_node(elements@, sources@, names@, node, p) {
                let p = choose|p: usize| #[trigger] panel_at_node(elements@, sources@, names@, node, p);
                assert(lists.at(node as u64).contains(p));
            }
        }
    }
    r
}

proof fn listing_step(
    before: Seq<usize>,
    after: Seq<usize>,
    elements: Seq<ElementData>,
    owners: Seq<Option<usize>>,
    names: Map<u32, u32>,
    node: u32,
    q: usize,
    e: int,
    i: int,
    p: usize,
    name: u32,
)
    requires
        0 <= e < elements.len(),
        0 <= i < elements[e].nodes@.len(),
        owners[e] == Some(p),
        name == name_of(names, elements[e].nodes@[i]),
        before.contains(q) <==> panel_listed(elements, owners, names, node, q, e, i),
        after == if node == name {
            before.push(p)
        } else {
            before
        },
    ensures
        after.contains(q) <==> panel_listed(elements, owners, names, node, q, e, i + 1),
{
    if after.contains(q) {
        let m = choose|m: int| 0 <= m < after.len() && after[m] == q;
        if m < before.len() {
            assert(before[m] == q);
            assert(before.contains(q));
            let (d, j) = choose|d: int, j: int|
                0 <= d < elements.len() && 0 <= j < elements[d].nodes@.len() && (d < e || (d == e && j < i)) && owners[d] == Some(q) && name_of(names, #[trigger] elements[d].nodes@[j]) == node;
            assert(name_of(names, elements[d].nodes@[j]) == node);
        } else {
            assert(name_of(names, elements[e].nodes@[i]) == node);
        }
    }
    if panel_listed(elements, owners, names, node, q, e, i + 1) {
        let (d, j) = choose|d: int, j: int|
            0 <= d < elements.len() && 0 <= j < elements[d].nodes@.len() && (d < e || (d == e && j < i + 1)) && owners[d] == Some(q) && name_of(names, #[trigger] elements[d].nodes@[j]) == node;
        if d == e && j == i {
            assert(after[before.len() as int] == q);
        } else {
            assert(name_of(names, elements[d].nodes@[j]) == node);
            assert(panel_listed(elements, owners, names, node, q, e, i));
            let m = choose|m: int| 0 <= m < before.len() && before[m] == q;
            assert(after[m] == q);
        }
    }
}

proof fn listing_done(
    elements: Seq<ElementData>,
    owners: Seq<Option<usize>>,
    names: Map<u32, u32>,
    node: u32,
    q: usize,
    e: int,
)
    requires
        0 <= e < elements.len(),
    ensures
        panel_listed(elements, owners, names, node, q, e, elements[e].nodes@.len() as int) <==> panel_listed(elements, owners, names, node, q, e + 1, 0),
{
    if panel_listed(elements, owners, names, node, q, e, elements[e].nodes@.len() as int) {
        let (d, j) = choose|d: int, j: int|
            0 <= d < elements.len() && 0 <= j < elements[d].nodes@.len() && (d < e || (d == e && j < elements[e].nodes@.len())) && owners[d] == Some(q) && name_of(names, #[trigger] elements[d].nodes@[j]) == node;
        assert(name_of(names, elements[d].nodes@[j]) == node);
    }
    if panel_listed(elements, owners, names, node, q, e + 1, 0) {
        let (d, j) = choose|d: int, j: int|
            0 <= d < elements.len() && 0 <= j < elements[d].nodes@.len() && (d < e + 1 || (d == e + 1 && j < 0)) && owners[d] == Some(q) && name_of(names, #[trigger] elements[d].nodes@[j]) == node;
        assert(name_of(names, elements[d].nodes@[j]) == node);
    }
}

proof fn listing_skip(
    elements: Seq<ElementData>,
    owners: Seq<Option<usize>>,
    names: Map<u32, u32>,
    node: u32,
    q: usize,
    e: int,
)
    requires
        0 <= e < elements.len(),
        owners[e] is None,
    ensures
        panel_listed(elements, owners, names, node, q, e, 0) <==> panel_listed(elements, owners, names, node, q, e + 1, 0),
{
    if panel_listed(elements, owners, names, node, q, e, 0) {
        let (d, j) = choose|d: int, j: int|
            0 <= d < elements.len() && 0 <= j < elements[d].nodes@.len() && (d < e || (d == e && j < 0)) && owners[d] == Some(q) && name_of(names, #[trigger] elements[d].nodes@[j]) == node;
        assert(name_of(names, elements[d].nodes@[j]) == node);
    }
    if panel_listed(elements, owners, names, node, q, e + 1, 0) {
        let (d, j) = choose|d: int, j: int|
            0 <= d < elements.len() && 0 <= j < elements[d].nodes@.len() && (d < e + 1 || (d == e + 1 && j < 0)) && owners[d] == Some(q) && name_of(names, #[trigger] elements[d].nodes@[j]) == node;
        assert(name_of(names, elements[d].nodes@[j]) == node);
    }
}

proof fn listing_is_incidence(
    elements: Seq<ElementData>,
    owners: Seq<Option<usize>>,
    sources: Seq<Vec<u32>>,
    names: Map<u32, u32>,
    node: u32,
    p: usize,
)
    requires
        owned(owners, elements, sources),
    ensures
        panel_listed(elements, owners, names, node, p, elements.len() as int, 0) == panel_at_node(elements, sources, names, node, p),
{
    if panel_listed(elements, owners, names, node, p, elements.len() as int, 0) {
        let (d, j) = choose|d: int, j: int|
            0 <= d < elements.len() && 0 <= j < elements[d].nodes@.len() && (d < elements.len() || (d == elements.len() && j < 0)) && owners[d] == Some(p) && name_of(names, #[trigger] elements[d].nodes@[j]) == node;
        assert(last_panel(sources, elements[d].id, p as int));
        assert(name_of(names, elements[d].nodes@[j]) == node);
    }
    if panel_at_node(elements, sources, names, node, p) {
        let (d, j) = choose|d: int, j: int|
            0 <= d < elements.len() && 0 <= j < elements[d].nodes@.len() && last_panel(sources, elements[d].id, p as int) && name_of(names, #[trigger] elements[d].nodes@[j]) == node;
        assert(owners[d] == Some(p));
        assert(name_of(names, elements[d].nodes@[j]) == node);
    }
}

/// The panels that all points of a node project into.
pub open spec fn fitting(fits: Seq<bool>, upto: int) -> Seq<usize>
    decreases upto,
{
    if upto <= 0 {
        Seq::empty()
    } else if fits[upto - 1] {
        fitting(fits, upto - 1).push((upto - 1) as usize)
    } else {
        fitting(fits, upto - 1)
    }
}

/// Two panels that run parallel and apart both fit.
pub open spec fn contested(fits: Seq<bool>, clashes: Seq<(usize, usize)>) -> bool {
    exists|k: int|
        0 <= k < clashes.len() && fits[(#[trigger] clashes[k]).0 as int] && fits[clashes[k].1 as int]
}

pub open spec fn ids_at(indices: Seq<usize>, ids: Seq<u32>) -> Seq<u32> {
    Seq::new(indices.len(), |k: int| ids[indices[k] as int])
}

fn ids_of(indices: &Vec<usize>, ids: &Vec<u32>) -> (r: Vec<u32>)
    requires
        forall|k: int| 0 <= k < indices@.len() ==> #[trigger] indices@[k] < ids@.len(),
    ensures
        r@ == ids_at(indices@, ids@),
{
    let mut r: Vec<u32> = Vec::new();
    let mut k: usize = 0;
    while k < indices.len()
        invariant
            forall|m: int| 0 <= m < indices@.len() ==> #[trigger] indices@[m] < ids@.len(),
            k <= indices@.len(),
            r@ =~= ids_at(indices@, ids@).take(k as int),
        decreases indices@.len() - k,
    {
        r.push(ids[indices[k]]);
        k += 1;
    }
    assert(r@ =~= ids_at(indices@, ids@));
    r
}

proof fn fitting_known(fits: Seq<bool>, upto: int, k: int)
    requires
        0 <= upto <= fits.len(),
        fits.len() <= usize::MAX,
        0 <= k < fitting(fits, upto).len(),
    ensures
        fitting(fits, upto)[k] < upto,
    decreases upto,
{
    if upto > 0 {
        let rest = fitting(fits, upto - 1);
        if k < rest.len() {
            fitting_known(fits, upto - 1, k);
        }
    }
}

/// What is inferred for a node without source incidence.
pub open spec fn inferred(
    before: BarContactSummary,
    after: BarContactSummary,
    incident_before: Map<u32, Seq<usize>>,
    incident_after: Map<u32, Seq<usize>>,
    node: u32,
    fits: Seq<bool>,
    clashes: Seq<(usize, usize)>,
    panel_ids: Seq<u32>,
) -> bool {
    let found = fitting(fits, fits.len() as int);
    if incident_before.dom().contains(node) {
        &&& incident_after == incident_before
        &&& after == before
    } else if contested(fits, clashes) {
        &&& incident_after == incident_before.insert(node, Seq::empty())
        &&& after == (BarContactSummary {
            ambiguous_panel_ids_by_node: after.ambiguous_panel_ids_by_node,
            ..before
        })
        &&& listed_next(
            before.ambiguous_panel_ids_by_node@,
            after.ambiguous_panel_ids_by_node@,
            node,
            ids_at(found, panel_ids),
        )
    } else if found.len() > 0 {
        &&& incident_after == incident_before.insert(node, found)
        &&& after == (BarContactSummary { inferred_panel_ids_by_node: after.inferred_panel_ids_by_node, ..before })
        &&& listed_next(
            before.inferred_panel_ids_by_node@,
            after.inferred_panel_ids_by_node@,
            node,
            ids_at(found, panel_ids),
        )
    } else {
        &&& incident_after == incident_before
        &&& after == before
    }
}

pub open spec fn listed_next(before: Seq<NodePanels>, after: Seq<NodePanels>, node: u32, ids: Seq<u32>) -> bool {
    &&& after.len() == before.len() + 1
    &&& after.drop_last() == before
    &&& after.last().node == node
    &&& after.last().panel_ids@ == ids
}

/// Infers what a node without source incidence lies on. A point must project inside
/// the actual surface. Parallel alternatives are no evidence for either: such a node
/// is listed with nothing, which keeps the nearest surface from being taken later.
#[verifier::loop_isolation(false)]
pub fn infer_incidence(
    incident: &mut PanelIncidence,
    stats: &mut BarContactSummary,
    node: u32,
    fits: &Vec<bool>,
    clashes: &Vec<(usize, usize)>,
    panel_ids: &Vec<u32>,
)
    requires
        old(incident).well_formed(),
        panel_ids@.len() == fits@.len(),
        forall|k: int|
            0 <= k < clashes@.len() ==> (#[trigger] clashes@[k]).0 < fits@.len() && clashes@[k].1 < fits@.len(),
    ensures
        final(incident).well_formed(),
        inferred(
            *old(stats),
            *final(stats),
            old(incident)@,
            final(incident)@,
            node,
            fits@,
            clashes@,
            panel_ids@,
        ),
{
    if incident.get(node).is_some() {
        return;
    }
    let total: usize = fits.len();
    let mut found: Vec<usize> = Vec::new();
    let mut k: usize = 0;
    while k < fits.len()
        invariant
            k <= fits@.len(),
            found@ == fitting(fits@, k as int),
        decreases fits@.len() - k,
    {
        if fits[k] {
            found.push(k);
        }
        k += 1;
    }
    assert forall|m: int| 0 <= m < found@.len() implies #[trigger] found@[m] < panel_ids@.len() by {
        assert(fits@.len() == total);
        fitting_known(fits@, fits@.len() as int, m);
    }
    let ids = ids_of(&found, panel_ids);
    let mut clash: bool = false;
    let mut k: usize = 0;
    while k < clashes.len()
        invariant
            k <= clashes@.len(),
            clash ==> contested(fits@, clashes@),
            !clash ==> forall|m: int| 0 <= m < k ==> !(fits@[(#[trigger] clashes@[m]).0 as int] && fits@[clashes@[m].1 as int]),
        decreases clashes@.len() - k,
    {
        let pair = clashes[k];
        assert(clashes@[k as int].0 < fits@.len());
        if fits[pair.0] && fits[pair.1] {
            assert(fits@[clashes@[k as int].0 as int] && fits@[clashes@[k as int].1 as int]);
            clash = true;
        }
        k += 1;
    }
    if clash {
        stats.ambiguous_panel_ids_by_node.push(NodePanels { node, panel_ids: ids });
        assert(stats.ambiguous_panel_ids_by_node@.drop_last() =~= old(stats).ambiguous_panel_ids_by_node@);
        let empty: Vec<usize> = Vec::new();
        assert(empty@ =~= Seq::<usize>::empty());
        incident.set(node, empty);
    } else if found.len() > 0 {
        stats.inferred_panel_ids_by_node.push(NodePanels { node, panel_ids: ids });
        assert(stats.inferred_panel_ids_by_node@.drop_last() =~= old(stats).inferred_panel_ids_by_node@);
        incident.set(node, found);
    }
}

/// Source incidence is never replaced by an inference.
pub proof fn source_incidence_stays(
    before: BarContactSummary,
    after: BarContactSummary,
    incident_before: Map<u32, Seq<usize>>,
    incident_after: Map<u32, Seq<usize>>,
    node: u32,
    fits: Seq<bool>,
    clashes: Seq<(usize, usize)>,
    panel_ids: Seq<u32>,
    known: u32,
)
    requires
        inferred(before, after, incident_before, incident_after, node, fits, clashes, panel_ids),
        incident_before.dom().contains(known),
    ensures
        incident_after.dom().contains(known),
        incident_after[known] == incident_before[known],
{
}

/// A place on a bar: one of its ends or a constraint.
#[derive(Debug, Clone, Copy, PartialEq, Eq, Structural)]
pub enum Anchor {
    Start,
    End,
    Interior(usize),
}

#[derive(Debug, Clone, Copy, PartialEq, Eq, Structural)]
pub struct AnchorRef {
    pub bar: usize,
    pub anchor: Anchor,
}

pub open spec fn interior_anchors(bar: usize, constraints: Seq<BarConstraint>, node: u32, upto: int) -> Seq<AnchorRef>
    decreases upto,
{
    if upto <= 0 {
        Seq::empty()
    } else if constraints[upto - 1].source_node_id == Some(node) {
        interior_anchors(bar, constraints, node, upto - 1).push(
            AnchorRef { bar, anchor: Anchor::Interior((upto - 1) as usize) },
        )
    } else {
        interior_anchors(bar, constraints, node, upto - 1)
    }
}

pub open spec fn with_anchor(list: Seq<AnchorRef>, holds: bool, anchor: AnchorRef) -> Seq<AnchorRef> {
    if holds {
        list.push(anchor)
    } else {
        list
    }
}

/// The places of a bar at a node.
pub open spec fn bar_anchors(bar: usize, axis: MacroBar, node: u32) -> Seq<AnchorRef> {
    with_anchor(
        with_anchor(
            Seq::empty(),
            axis.start_node_id == node,
            AnchorRef { bar, anchor: Anchor::Start },
        ),
        axis.end_node_id == node,
        AnchorRef { bar, anchor: Anchor::End },
    ) + interior_anchors(bar, axis.constraints@, node, axis.constraints@.len() as int)
}

/// The places of the first bars at a node.
pub open spec fn anchors_at(bars: Seq<MacroBar>, node: u32, upto: int) -> Seq<AnchorRef>
    decreases upto,
{
    if upto <= 0 {
        Seq::empty()
    } else {
        anchors_at(bars, node, upto - 1) + bar_anchors((upto - 1) as usize, bars[upto - 1], node)
    }
}

/// Everything that is joined at a node.
#[derive(Debug)]
pub struct AnchorGroup {
    pub node: u32,
    pub anchors: Vec<AnchorRef>,
}

pub open spec fn grouped(groups: Seq<AnchorGroup>, bars: Seq<MacroBar>) -> bool {
    &&& forall|g: int|
        0 <= g < groups.len() ==> (#[trigger] groups[g]).anchors@.len() > 0 && groups[g].anchors@
            == anchors_at(bars, groups[g].node, bars.len() as int)
    &&& forall|g: int, h: int|
        0 <= g < h < groups.len() ==> (#[trigger] groups[g]).node < (#[trigger] groups[h]).node
    &&& forall|node: u32|
        #[trigger] anchors_at(bars, node, bars.len() as int).len() > 0 ==> node_grouped(groups, node)
}

pub open spec fn node_grouped(groups: Seq<AnchorGroup>, node: u32) -> bool {
    exists|g: int| 0 <= g < groups.len() && (#[trigger] groups[g]).node == node
}

spec fn refs_at(all: Seq<AnchorRef>, list: Seq<usize>) -> Seq<AnchorRef> {
    Seq::new(list.len(), |k: int| all[list[k] as int])
}

/// The places collected so far.
struct AnchorTable {
    lists: Lists,
    all: Vec<AnchorRef>,
    nodes: Vec<u32>,
}

impl AnchorTable {
    spec fn sound(&self) -> bool {
        &&& self.lists.well_formed()
        &&& forall|x: u64, k: int| 0 <= k < self.lists.at(x).len() ==> #[trigger] self.lists.at(x)[k] < self.all@.len()
        &&& forall|node: u32| #[trigger] self.nodes@.contains(node) <==> self.lists.at(node as u64).len() > 0
    }

    spec fn at(&self, node: u32) -> Seq<AnchorRef> {
        refs_at(self.all@, self.lists.at(node as u64))
    }

    fn add(&mut self, node: u32, anchor: AnchorRef)
        requires
            old(self).sound(),
        ensures
            final(self).sound(),
            forall|other: u32| #[trigger] final(self).at(other) == with_anchor(old(self).at(other), other == node, anchor),
    {
        let index: usize = self.all.len();
        self.all.push(anchor);
        self.lists.push(node as u64, index);
        self.nodes.push(node);
        proof {
            assert forall|x: u64, k: int| 0 <= k < self.lists.at(x).len() implies #[trigger] self.lists.at(x)[k] < self.all@.len() by {
                if k < old(self).lists.at(x).len() {
                    assert(old(self).lists.at(x)[k] < old(self).all@.len());
                }
            }
            assert forall|other: u32| #[trigger] self.at(other) == with_anchor(old(self).at(other), other == node, anchor) by {
                let before = old(self).lists.at(other as u64);
                assert forall|k: int| 0 <= k < before.len() implies #[trigger] before[k] < old(self).all@.len() by {
                    assert(old(self).lists.at(other as u64)[k] < old(self).all@.len());
                }
                assert(self.at(other) =~= with_anchor(old(self).at(other), other == node, anchor));
            }
            assert forall|other: u32| #[trigger] self.nodes@.contains(other) <==> self.lists.at(other as u64).len() > 0 by {
                let before = old(self).nodes@;
                if other == node {
                    assert(self.nodes@[before.len() as int] == node);
                } else {
                    assert(before.contains(other) <==> old(self).lists.at(other as u64).len() > 0);
                    if self.nodes@.contains(other) {
                        let m = choose|m: int| 0 <= m < self.nodes@.len() && self.nodes@[m] == other;
                        assert(before[m] == other);
                    }
                    if before.contains(other) {
                        let m = choose|m: int| 0 <= m < before.len() && before[m] == other;
                        assert(self.nodes@[m] == other);
                    }
                }
            }
        }
    }
}

/// Groups the places of all bars by node, nodes ascending.
#[verifier::rlimit(60)]
#[verifier::loop_isolation(false)]
pub fn anchor_groups(bars: &Vec<MacroBar>) -> (r: Vec<AnchorGroup>)
    ensures
        grouped(r@, bars@),
{
    let mut table = AnchorTable { lists: Lists::new(), all: Vec::new(), nodes: Vec::new() };
    assert forall|node: u32| #[trigger] table.at(node) == anchors_at(bars@, node, 0) by {
        assert(table.at(node) =~= Seq::<AnchorRef>::empty());
    }
    let mut b: usize = 0;
    while b < bars.len()
        invariant
            b <= bars@.len(),
            table.sound(),
            forall|node: u32| #[trigger] table.at(node) == anchors_at(bars@, node, b as int),
        decreases bars@.len() - b,
    {
        let bar = &bars[b];
        let ghost start = table;
        table.add(bar.start_node_id, AnchorRef { bar: b, anchor: Anchor::Start });
        table.add(bar.end_node_id, AnchorRef { bar: b, anchor: Anchor::End });
        let ghost ends = table;
        let mut c: usize = 0;
        assert forall|node: u32| #[trigger] table.at(node) == ends.at(node) + interior_anchors(b, bar.constraints@, node, 0) by {
            assert(ends.at(node) + interior_anchors(b, bar.constraints@, node, 0) =~= ends.at(node));
        }
        while c < bar.constraints.len()
            invariant
                b < bars@.len(),
                *bar == bars@[b as int],
                c <= bar.constraints@.len(),
                table.sound(),
                forall|node: u32| #[trigger] table.at(node) == ends.at(node) + interior_anchors(b, bar.constraints@, node, c as int),
            decreases bar.constraints@.len() - c,
        {
            let ghost before = table;
            match bar.constraints[c].source_node_id {
                Some(node) => {
                    table.add(node, AnchorRef { bar: b, anchor: Anchor::Interior(c) });
                },
                None => {},
            }
            assert forall|node: u32| #[trigger] table.at(node) == ends.at(node) + interior_anchors(b, bar.constraints@, node, c + 1) by {
                assert(before.at(node) == ends.at(node) + interior_anchors(b, bar.constraints@, node, c as int));
                assert(table.at(node) =~= ends.at(node) + interior_anchors(b, bar.constraints@, node, c + 1));
            }
            c += 1;
        }
        assert forall|node: u32| #[trigger] table.at(node) == anchors_at(bars@, node, b + 1) by {
            assert(start.at(node) == anchors_at(bars@, node, b as int));
            let own = with_anchor(with_anchor(Seq::empty(), bar.start_node_id == node, AnchorRef { bar: b, anchor: Anchor::Start }), bar.end_node_id == node, AnchorRef { bar: b, anchor: Anchor::End });
            assert(ends.at(node) =~= start.at(node) + own);
            assert(table.at(node) =~= start.at(node) + (own + interior_anchors(b, bar.constraints@, node, c as int)));
        }
        b += 1;
    }
    let ghost seen = table.nodes@;
    let distinct = unique(table.nodes);
    let mut r: Vec<AnchorGroup> = Vec::new();
    let mut k: usize = 0;
    while k < distinct.len()
        invariant
            k <= distinct@.len(),
            r@.len() == k,
            forall|g: int| 0 <= g < k ==> (#[trigger] r@[g]).node == distinct@[g] && r@[g].anchors@ == refs_at(table.all@, table.lists.at(distinct@[g] as u64)),
        decreases distinct@.len() - k,
    {
        let node: u32 = distinct[k];
        let list = table.lists.get(node as u64);
        let mut anchors: Vec<AnchorRef> = Vec::new();
        let mut m: usize = 0;
        while m < list.len()
            invariant
                list@ == table.lists.at(node as u64),
                m <= list@.len(),
                anchors@ =~= refs_at(table.all@, list@).take(m as int),
            decreases list@.len() - m,
        {
            assert(table.lists.at(node as u64)[m as int] < table.all@.len());
            anchors.push(table.all[list[m]]);
            m += 1;
        }
        assert(anchors@ =~= refs_at(table.all@, list@));
        r.push(AnchorGroup { node, anchors });
        k += 1;
    }
    proof {
        assert forall|g: int| 0 <= g < r@.len() implies (#[trigger] r@[g]).anchors@.len() > 0 && r@[g].anchors@ == anchors_at(bars@, r@[g].node, bars@.len() as int) by {
            let node = distinct@[g];
            assert(distinct@.contains(node));
            assert(seen.contains(node));
            assert(table.at(node) == anchors_at(bars@, node, b as int));
        }
        assert forall|node: u32| #[trigger] anchors_at(bars@, node, bars@.len() as int).len() > 0 implies node_grouped(r@, node) by {
            assert(table.at(node) == anchors_at(bars@, node, b as int));
            assert(seen.contains(node));
            assert(distinct@.contains(node));
            let g = choose|g: int| 0 <= g < distinct@.len() && distinct@[g] == node;
            assert(r@[g].node == node);
        }
    }
    r
}

/// By what the places of a group are ordered: constraints before ends, then longer
/// bars first.
pub open spec fn anchor_keys(keys: Seq<Vec<i128>>, anchors: Seq<AnchorRef>, lengths: Seq<Scalar>) -> bool {
    &&& keys.len() == 2
    &&& keys[0]@.len() == anchors.len()
    &&& keys[1]@.len() == anchors.len()
    &&& forall|k: int|
        0 <= k < anchors.len() ==> #[trigger] keys[0]@[k] == (if anchors[k].anchor is Interior {
            0int
        } else {
            1int
        }) && keys[1]@[k] == -lengths[anchors[k].bar as int].total_rank()
}

/// Orders the places of a group.
#[verifier::loop_isolation(false)]
pub fn order_anchors(anchors: &Vec<AnchorRef>, lengths: &Vec<Scalar>) -> (order: Vec<usize>)
    requires
        forall|k: int| 0 <= k < anchors@.len() ==> (#[trigger] anchors@[k]).bar < lengths@.len(),
    ensures
        exists|keys: Seq<Vec<i128>>| #[trigger]
            anchor_keys(keys, anchors@, lengths@) && ordered_by(keys, 0, anchors@.len() as int, order@),
{
    let mut kinds: Vec<i128> = Vec::new();
    let mut sizes: Vec<i128> = Vec::new();
    let mut k: usize = 0;
    while k < anchors.len()
        invariant
            k <= anchors@.len(),
            kinds@.len() == k,
            sizes@.len() == k,
            forall|m: int|
                0 <= m < k ==> #[trigger] kinds@[m] == (if anchors@[m].anchor is Interior { 0int } else { 1int }) && sizes@[m] == -lengths@[anchors@[m].bar as int].total_rank(),
        decreases anchors@.len() - k,
    {
        let place = anchors[k];
        assert(anchors@[k as int].bar < lengths@.len());
        let kind: i128 = match place.anchor {
            Anchor::Interior(_) => 0,
            _ => 1,
        };
        kinds.push(kind);
        sizes.push(-(lengths[place.bar].total_key() as i128));
        k += 1;
    }
    let ghost listed = kinds@;
    let mut keys: Vec<Vec<i128>> = Vec::new();
    keys.push(kinds);
    keys.push(sizes);
    assert(anchor_keys(keys@, anchors@, lengths@)) by {
        assert forall|m: int| 0 <= m < anchors@.len() implies #[trigger] keys@[0]@[m] == (if anchors@[m].anchor is Interior { 0int } else { 1int }) && keys@[1]@[m] == -lengths@[anchors@[m].bar as int].total_rank() by {
            assert(listed[m] == listed[m]);
        }
    }
    sorted_by_keys(&keys, anchors.len())
}

/// A point that a group might go to.
#[derive(Debug, Clone, Copy)]
pub struct PlaceCandidate {
    /// Distance to where the group is.
    pub distance: Scalar,
    /// Every bar stays straight and within its budget, and every surface takes it.
    pub acceptable: bool,
}

/// What is measured of a choice of surfaces for a group.
#[derive(Debug)]
pub struct ChoiceMeasure {
    /// All surfaces are within the tolerance.
    pub all_near: bool,
    /// Axes and planes have a point in common.
    pub projected: bool,
    pub candidates: Vec<PlaceCandidate>,
}

/// The closest acceptable candidate; of equally close ones the first.
pub open spec fn closest_acceptable(candidates: Seq<PlaceCandidate>, k: int) -> bool {
    &&& 0 <= k < candidates.len()
    &&& candidates[k].acceptable
    &&& forall|m: int|
        0 <= m < candidates.len() && (#[trigger] candidates[m]).acceptable ==> candidates[k].distance.total_rank()
            < candidates[m].distance.total_rank() || (candidates[k].distance.total_rank()
            == candidates[m].distance.total_rank() && k <= m)
}

pub open spec fn none_acceptable(candidates: Seq<PlaceCandidate>) -> bool {
    forall|m: int| 0 <= m < candidates.len() ==> !(#[trigger] candidates[m]).acceptable
}

pub open spec fn choice_error(measure: ChoiceMeasure) -> Option<Seq<char>> {
    if !measure.all_near {
        Some("surface_outside_tolerance"@)
    } else if !measure.projected {
        Some("incompatible_axis_and_planes"@)
    } else if none_acceptable(measure.candidates@) {
        Some("would_bend_axis_exceed_budget_or_create_short_constraint"@)
    } else {
        None
    }
}

/// Chooses the point for a group on given surfaces.
pub fn choose_point(measure: &ChoiceMeasure) -> (r: Result<usize, &'static str>)
    ensures
        match r {
            Ok(k) => choice_error(*measure) is None && closest_acceptable(measure.candidates@, k as int),
            Err(error) => choice_error(*measure) == Some(error@),
        },
{
    if !measure.all_near {
        return Err("surface_outside_tolerance");
    }
    if !measure.projected {
        return Err("incompatible_axis_and_planes");
    }
    let mut best: Option<usize> = None;
    let mut k: usize = 0;
    while k < measure.candidates.len()
        invariant
            k <= measure.candidates@.len(),
            match best {
                Some(b) => b < k && measure.candidates@[b as int].acceptable && forall|m: int|
                    0 <= m < k && (#[trigger] measure.candidates@[m]).acceptable ==> measure.candidates@[b as int].distance.total_rank() < measure.candidates@[m].distance.total_rank() || (measure.candidates@[b as int].distance.total_rank() == measure.candidates@[m].distance.total_rank() && b <= m),
                None => forall|m: int| 0 <= m < k ==> !(#[trigger] measure.candidates@[m]).acceptable,
            },
        decreases measure.candidates@.len() - k,
    {
        if measure.candidates[k].acceptable {
            match best {
                Some(b) => {
                    if measure.candidates[k].distance.total_key() < measure.candidates[b].distance.total_key() {
                        best = Some(k);
                    }
                },
                None => {
                    best = Some(k);
                },
            }
        }
        k += 1;
    }
    match best {
        Some(b) => {
            assert(measure.candidates@[b as int].acceptable);
            Ok(b)
        },
        None => Err("would_bend_axis_exceed_budget_or_create_short_constraint"),
    }
}

/// A point on one of the surfaces of a group, with the surfaces that take it.
#[derive(Debug)]
pub struct PartialChoice {
    pub compatible: Vec<usize>,
    pub distance: Scalar,
}

/// The partial choice with most surfaces; among those the closest, then the first.
pub open spec fn best_choice(options: Seq<PartialChoice>, k: int) -> bool {
    &&& 0 <= k < options.len()
    &&& forall|m: int| 0 <= m < options.len() ==> choice_before(options, k, #[trigger] choice_at(options, m))
}

pub open spec fn choice_at(options: Seq<PartialChoice>, m: int) -> int {
    m
}

pub open spec fn choice_before(options: Seq<PartialChoice>, k: int, m: int) -> bool {
    let a = options[k];
    let b = options[m];
    a.compatible@.len() > b.compatible@.len() || (a.compatible@.len() == b.compatible@.len() && (
    a.distance.total_rank() < b.distance.total_rank() || (a.distance.total_rank() == b.distance.total_rank() && k
        <= m)))
}

/// Keeps as much of the incidence as can be kept.
pub fn best_partial(options: &Vec<PartialChoice>) -> (r: Option<usize>)
    ensures
        match r {
            Some(k) => best_choice(options@, k as int),
            None => options@.len() == 0,
        },
{
    if options.len() == 0 {
        return None;
    }
    let mut best: usize = 0;
    let mut k: usize = 1;
    while k < options.len()
        invariant
            best < k <= options@.len(),
            forall|m: int| 0 <= m < k ==> choice_before(options@, best as int, #[trigger] choice_at(options@, m)),
        decreases options@.len() - k,
    {
        let ghost before = best as int;
        if options[k].compatible.len() > options[best].compatible.len() || (options[k].compatible.len()
            == options[best].compatible.len() && options[k].distance.total_key() < options[best].distance.total_key()) {
            best = k;
        }
        assert forall|m: int| 0 <= m < k + 1 implies choice_before(options@, best as int, #[trigger] choice_at(options@, m)) by {
            if m < k {
                assert(choice_before(options@, before, choice_at(options@, m)));
            }
        }
        k += 1;
    }
    Some(best)
}

/// The surfaces of a group that a partial choice leaves out.
pub open spec fn left_out(indices: Seq<usize>, compatible: Seq<usize>, upto: int) -> Seq<usize>
    decreases upto,
{
    if upto <= 0 {
        Seq::empty()
    } else if compatible.contains(indices[upto - 1]) {
        left_out(indices, compatible, upto - 1)
    } else {
        left_out(indices, compatible, upto - 1).push(indices[upto - 1])
    }
}

proof fn left_out_known(indices: Seq<usize>, compatible: Seq<usize>, upto: int, k: int, n: int)
    requires
        0 <= upto <= indices.len(),
        0 <= k < left_out(indices, compatible, upto).len(),
        forall|m: int| 0 <= m < indices.len() ==> #[trigger] indices[m] < n,
    ensures
        left_out(indices, compatible, upto)[k] < n,
    decreases upto,
{
    if upto > 0 {
        let rest = left_out(indices, compatible, upto - 1);
        if k < rest.len() {
            left_out_known(indices, compatible, upto - 1, k, n);
        } else {
            assert(indices[upto - 1] < n);
        }
    }
}

fn find_left_out(indices: &Vec<usize>, compatible: &Vec<usize>) -> (r: Vec<usize>)
    ensures
        r@ == left_out(indices@, compatible@, indices@.len() as int),
{
    let mut r: Vec<usize> = Vec::new();
    let mut k: usize = 0;
    while k < indices.len()
        invariant
            k <= indices@.len(),
            r@ == left_out(indices@, compatible@, k as int),
        decreases indices@.len() - k,
    {
        if !lists_index(compatible, indices[k]) {
            r.push(indices[k]);
        }
        k += 1;
    }
    r
}

/// Records a group that not all of its surfaces took. `compatible` are those that
/// did, if any.
pub fn note_partial(
    stats: &mut BarContactSummary,
    node: u32,
    indices: &Vec<usize>,
    compatible: &Option<Vec<usize>>,
    panel_ids: &Vec<u32>,
)
    requires
        forall|m: int| 0 <= m < indices@.len() ==> #[trigger] indices@[m] < panel_ids@.len(),
        old(stats).partial_groups < usize::MAX,
    ensures
        final(stats).partial_groups == old(stats).partial_groups + (if compatible is Some {
            1int
        } else {
            0int
        }),
        listed_next(
            old(stats).unresolved_panel_ids_by_node@,
            final(stats).unresolved_panel_ids_by_node@,
            node,
            match compatible {
                Some(list) => ids_at(left_out(indices@, list@, indices@.len() as int), panel_ids@),
                None => ids_at(indices@, panel_ids@),
            },
        ),
        *final(stats) == (BarContactSummary {
            partial_groups: final(stats).partial_groups,
            unresolved_panel_ids_by_node: final(stats).unresolved_panel_ids_by_node,
            ..*old(stats)
        }),
{
    match compatible {
        Some(list) => {
            let missing = find_left_out(indices, list);
            assert forall|k: int| 0 <= k < missing@.len() implies #[trigger] missing@[k] < panel_ids@.len() by {
                left_out_known(indices@, list@, indices@.len() as int, k, panel_ids@.len() as int);
            }
            let ids = ids_of(&missing, panel_ids);
            stats.partial_groups += 1;
            stats.unresolved_panel_ids_by_node.push(NodePanels { node, panel_ids: ids });
        },
        None => {
            let ids = ids_of(indices, panel_ids);
            stats.unresolved_panel_ids_by_node.push(NodePanels { node, panel_ids: ids });
        },
    }
    assert(stats.unresolved_panel_ids_by_node@.drop_last() =~= old(stats).unresolved_panel_ids_by_node@);
}

/// Records a group that went to a point.
pub fn note_attached(stats: &mut BarContactSummary, surfaces: usize, movement: &Scalar)
    requires
        old(stats).attached_groups < usize::MAX,
        old(stats).moved_groups < usize::MAX,
    ensures
        final(stats).attached_groups == old(stats).attached_groups + (if surfaces > 0 {
            1int
        } else {
            0int
        }),
        final(stats).moved_groups == old(stats).moved_groups + (if (Scalar { bits: PRECISION }).lt(*movement) {
            1int
        } else {
            0int
        }),
        *final(stats) == (BarContactSummary {
            attached_groups: final(stats).attached_groups,
            moved_groups: final(stats).moved_groups,
            ..*old(stats)
        }),
{
    if surfaces > 0 {
        stats.attached_groups += 1;
    }
    if (Scalar { bits: PRECISION }).less(movement) {
        stats.moved_groups += 1;
    }
}

/// What is measured where an axis runs through a plane.
#[derive(Debug)]
pub struct CrossingMeasure {
    /// Size of the product of axis and normal.
    pub denominator: Scalar,
    pub t: Scalar,
    /// End of the axis, less the precision.
    pub last: Scalar,
    /// The point lies in the panel.
    pub inside: bool,
    /// Distances that must be nothing or long enough: to the boundary, to points of
    /// the panel, to other constraints. Each comes with room for rounding.
    pub gaps: Vec<[Scalar; 2]>,
    /// Distances to the ends of the axis, with room for rounding.
    pub to_ends: [Scalar; 2],
    pub shortest: Scalar,
}

#[derive(Debug, Clone, Copy, PartialEq, Eq, Structural)]
pub enum Crossing {
    Absent,
    TooClose,
    Taken,
}

pub open spec fn gap_allowed(gap: [Scalar; 2], shortest: Scalar) -> bool {
    gap[0].le(Scalar { bits: PRECISION }) || shortest.le(gap[1])
}

pub open spec fn well_spaced(measure: CrossingMeasure) -> bool {
    &&& forall|k: int| 0 <= k < measure.gaps@.len() ==> gap_allowed(#[trigger] measure.gaps@[k], measure.shortest)
    &&& measure.shortest.le(measure.to_ends[0])
    &&& measure.shortest.le(measure.to_ends[1])
}

pub open spec fn crossing_of(measure: CrossingMeasure) -> Crossing {
    if measure.denominator.lt(Scalar { bits: PRECISION }) || measure.t.le(Scalar { bits: PRECISION })
        || measure.last.le(measure.t) || !measure.inside {
        Crossing::Absent
    } else if well_spaced(measure) {
        Crossing::Taken
    } else {
        Crossing::TooClose
    }
}

fn is_well_spaced(measure: &CrossingMeasure) -> (r: bool)
    ensures
        r == well_spaced(*measure),
{
    let mut k: usize = 0;
    while k < measure.gaps.len()
        invariant
            k <= measure.gaps@.len(),
            forall|m: int| 0 <= m < k ==> gap_allowed(#[trigger] measure.gaps@[m], measure.shortest),
        decreases measure.gaps@.len() - k,
    {
        let gap: [Scalar; 2] = measure.gaps[k];
        if !gap[0].at_most(&Scalar { bits: PRECISION }) && !measure.shortest.at_most(&gap[1]) {
            assert(!gap_allowed(measure.gaps@[k as int], measure.shortest));
            return false;
        }
        k += 1;
    }
    measure.shortest.at_most(&measure.to_ends[0]) && measure.shortest.at_most(&measure.to_ends[1])
}

/// Whether an axis runs through a panel, and whether that makes a constraint. A
/// column through a slab stays one line.
pub fn classify_crossing(measure: &CrossingMeasure) -> (r: Crossing)
    ensures
        r == crossing_of(*measure),
{
    if measure.denominator.less(&Scalar { bits: PRECISION }) || measure.t.at_most(&Scalar { bits: PRECISION })
        || measure.last.at_most(&measure.t) || !measure.inside {
        return Crossing::Absent;
    }
    if is_well_spaced(measure) {
        Crossing::Taken
    } else {
        Crossing::TooClose
    }
}

pub open spec fn lists_text(list: Seq<String>, text: Seq<char>) -> bool {
    exists|k: int| 0 <= k < list.len() && (#[trigger] list[k])@ == text
}

pub fn has_text(list: &Vec<String>, text: &str) -> (r: bool)
    ensures
        r == lists_text(list@, text@),
{
    let mut k: usize = 0;
    while k < list.len()
        invariant
            k <= list@.len(),
            forall|m: int| 0 <= m < k ==> (#[trigger] list@[m])@ != text@,
        decreases list@.len() - k,
    {
        if is_text(list[k].as_str(), text) {
            assert(list@[k as int]@ == text@);
            return true;
        }
        k += 1;
    }
    false
}

/// A constraint after a panel crosses there.
pub open spec fn crossed(before: BarConstraint, after: BarConstraint, panel_id: u32) -> bool {
    &&& after.t == before.t
    &&& after.source_node_id == before.source_node_id
    &&& after.panel_ids@ == if before.panel_ids@.contains(panel_id) {
        before.panel_ids@
    } else {
        before.panel_ids@.push(panel_id)
    }
    &&& if lists_text(before.kinds@, "surface_intersection"@) {
        after.kinds@ == before.kinds@
    } else {
        after.kinds@.len() == before.kinds@.len() + 1 && after.kinds@.drop_last() == before.kinds@
            && after.kinds@.last()@ == "surface_intersection"@
    }
}

/// Adds a crossing to the constraints of a bar: to the one that is already there, or
/// as a new one.
pub fn add_crossing(constraints: &mut Vec<BarConstraint>, existing: Option<usize>, t: Scalar, panel_id: u32)
    requires
        match existing {
            Some(k) => k < old(constraints)@.len(),
            None => true,
        },
    ensures
        match existing {
            Some(k) => {
                &&& final(constraints)@.len() == old(constraints)@.len()
                &&& crossed(old(constraints)@[k as int], final(constraints)@[k as int], panel_id)
                &&& forall|m: int|
                    0 <= m < old(constraints)@.len() && m != k ==> (#[trigger] final(constraints)@[m])
                        == old(constraints)@[m]
            },
            None => {
                &&& final(constraints)@.len() == old(constraints)@.len() + 1
                &&& final(constraints)@.drop_last() == old(constraints)@
                &&& final(constraints)@.last().t == t
                &&& final(constraints)@.last().source_node_id is None
                &&& final(constraints)@.last().panel_ids@ == seq![panel_id]
                &&& final(constraints)@.last().kinds@.len() == 1
                &&& final(constraints)@.last().kinds@[0]@ == "surface_intersection"@
            },
        },
{
    match existing {
        Some(k) => {
            let mut constraint = constraints.remove(k);
            if !lists_id(&constraint.panel_ids, panel_id) {
                constraint.panel_ids.push(panel_id);
            }
            if !has_text(&constraint.kinds, "surface_intersection") {
                let ghost before = constraint.kinds@;
                constraint.kinds.push("surface_intersection".to_string());
                assert(constraint.kinds@.drop_last() =~= before);
            }
            constraints.insert(k, constraint);
        },
        None => {
            let mut kinds: Vec<String> = Vec::new();
            kinds.push("surface_intersection".to_string());
            let mut panel_ids: Vec<u32> = Vec::new();
            panel_ids.push(panel_id);
            assert(panel_ids@ =~= seq![panel_id]);
            constraints.push(BarConstraint { t, source_node_id: None, kinds, panel_ids });
            assert(constraints@.drop_last() =~= old(constraints)@);
        },
    }
}

/// The first constraint that a crossing coincides with, by the distances to them.
pub fn coincident(distances: &Vec<Scalar>) -> (r: Option<usize>)
    ensures
        match r {
            Some(k) => {
                &&& k < distances@.len()
                &&& distances@[k as int].le(Scalar { bits: PRECISION })
                &&& forall|m: int| 0 <= m < k ==> !(#[trigger] distances@[m]).le(Scalar { bits: PRECISION })
            },
            None => forall|m: int|
                0 <= m < distances@.len() ==> !(#[trigger] distances@[m]).le(Scalar { bits: PRECISION }),
        },
{
    let mut k: usize = 0;
    while k < distances.len()
        invariant
            k <= distances@.len(),
            forall|m: int| 0 <= m < k ==> !(#[trigger] distances@[m]).le(Scalar { bits: PRECISION }),
        decreases distances@.len() - k,
    {
        if distances[k].at_most(&Scalar { bits: PRECISION }) {
            return Some(k);
        }
        k += 1;
    }
    None
}

/// A crossing that was left out, as it is reported.
pub open spec fn crossing_record(
    record: RejectedSurfaceCrossing,
    panel_id: u32,
    elements: Seq<u32>,
    point: Point,
    t: Scalar,
) -> bool {
    &&& record.panel_id == panel_id
    &&& record.source_element_ids@ == elements
    &&& record.point == point
    &&& record.t == t
    &&& record.reason@ == "would_create_short_constraint"@
}

/// Counts a crossing that was taken, and reports one that was left out.
pub fn note_crossing(
    stats: &mut BarContactSummary,
    crossing: Crossing,
    panel_id: u32,
    elements: &Vec<u32>,
    point: Point,
    t: Scalar,
)
    requires
        crossing is Taken ==> old(stats).surface_crossings < usize::MAX,
    ensures
        match crossing {
            Crossing::Absent => *final(stats) == *old(stats),
            Crossing::Taken => *final(stats) == (BarContactSummary {
                surface_crossings: (old(stats).surface_crossings + 1) as usize,
                ..*old(stats)
            }),
            Crossing::TooClose => {
                &&& *final(stats) == (BarContactSummary {
                    rejected_crossing_details: final(stats).rejected_crossing_details,
                    ..*old(stats)
                })
                &&& final(stats).rejected_crossing_details@.len() == old(stats).rejected_crossing_details@.len() + 1
                &&& final(stats).rejected_crossing_details@.drop_last() == old(stats).rejected_crossing_details@
                &&& crossing_record(final(stats).rejected_crossing_details@.last(), panel_id, elements@, point, t)
            },
        },
{
    match crossing {
        Crossing::Absent => {},
        Crossing::Taken => {
            stats.surface_crossings = stats.surface_crossings + 1;
        },
        Crossing::TooClose => {
            let ghost before = stats.rejected_crossing_details@;
            stats.rejected_crossing_details.push(
                RejectedSurfaceCrossing {
                    panel_id,
                    source_element_ids: copy_ids(elements),
                    point,
                    t,
                    reason: "would_create_short_constraint".to_string(),
                },
            );
            assert(stats.rejected_crossing_details@.drop_last() =~= before);
        },
    }
}

/// The texts of a list in their order, each once.
pub open spec fn texts_listed(list: Seq<String>, source: Seq<String>) -> bool {
    &&& forall|i: int, j: int|
        0 <= i < j < list.len() ==> text_before((#[trigger] list[i])@, (#[trigger] list[j])@)
    &&& forall|text: Seq<char>| #[trigger] lists_text(list, text) <==> lists_text(source, text)
}

/// A constraint with its kinds and panels in order, each once.
pub open spec fn tidied(before: BarConstraint, after: BarConstraint) -> bool {
    &&& after.t == before.t
    &&& after.source_node_id == before.source_node_id
    &&& lists_distinct(after.panel_ids@, before.panel_ids@)
    &&& texts_listed(after.kinds@, before.kinds@)
}

pub open spec fn constraint_keys(keys: Seq<i128>, constraints: Seq<BarConstraint>) -> bool {
    &&& keys.len() == constraints.len()
    &&& forall|k: int| 0 <= k < constraints.len() ==> #[trigger] keys[k] == constraints[k].t.total_rank()
}

/// The constraints along their bar, those at the same place in their given order.
pub open spec fn along_bar(after: Seq<BarConstraint>, before: Seq<BarConstraint>) -> bool {
    exists|keys: Seq<i128>, order: Seq<usize>| #[trigger]
        constraint_keys(keys, before) && #[trigger] stable_order(keys, order) && after.len() == before.len()
            && forall|k: int| 0 <= k < after.len() ==> tidied(before[order[k] as int], #[trigger] after[k])
}

#[verifier::loop_isolation(false)]
fn sort_texts(source: &Vec<String>) -> (list: Vec<String>)
    ensures
        texts_listed(list@, source@),
{
    let mut list: Vec<String> = Vec::new();
    let mut k: usize = 0;
    assert(source@.take(0) =~= Seq::<String>::empty());
    while k < source.len()
        invariant
            k <= source@.len(),
            texts_listed(list@, source@.take(k as int)),
        decreases source@.len() - k,
    {
        let text = &source[k];
        let ghost before = list@;
        let mut at: usize = 0;
        while at < list.len() && is_text_before(list[at].as_str(), text.as_str())
            invariant
                at <= list@.len(),
                list@ == before,
                forall|m: int| 0 <= m < at ==> text_before((#[trigger] list@[m])@, text@),
            decreases list@.len() - at,
        {
            at += 1;
        }
        let present: bool = at < list.len() && is_text(list[at].as_str(), text.as_str());
        if !present {
            list.insert(at, text.clone());
        }
        proof {
            let shorter = source@.take(k as int);
            let longer = source@.take(k + 1);
            assert(longer =~= shorter.push(source@[k as int]));
            if !present {
                if at < before.len() {
                    text_order_total(before[at as int]@, text@);
                }
                assert forall|i: int, j: int| 0 <= i < j < list@.len() implies text_before((#[trigger] list@[i])@, (#[trigger] list@[j])@) by {
                    if j < at {
                        assert(list@[i] == before[i] && list@[j] == before[j]);
                    } else if j == at {
                        assert(list@[i] == before[i]);
                    } else if i == at {
                        assert(list@[j] == before[j - 1]);
                        if at < j - 1 {
                            assert(text_before(before[at as int]@, before[j - 1]@));
                            text_order_transitive(text@, before[at as int]@, before[j - 1]@);
                        }
                    } else if i < at {
                        assert(list@[i] == before[i] && list@[j] == before[j - 1]);
                    } else {
                        assert(list@[i] == before[i - 1] && list@[j] == before[j - 1]);
                    }
                }
            }
            assert forall|other: Seq<char>| #[trigger] lists_text(list@, other) <==> lists_text(longer, other) by {
                assert(lists_text(before, other) <==> lists_text(shorter, other));
                if lists_text(list@, other) {
                    let m = choose|m: int| 0 <= m < list@.len() && (#[trigger] list@[m])@ == other;
                    if !present {
                        if m == at {
                            assert(longer[k as int]@ == other);
                        } else {
                            let n = if m < at { m } else { m - 1 };
                            assert(before[n]@ == other);
                            assert(lists_text(shorter, other));
                        }
                    }
                    if lists_text(shorter, other) {
                        let n = choose|n: int| 0 <= n < shorter.len() && (#[trigger] shorter[n])@ == other;
                        assert(longer[n]@ == other);
                    }
                }
                if lists_text(longer, other) {
                    let n = choose|n: int| 0 <= n < longer.len() && (#[trigger] longer[n])@ == other;
                    if n < k {
                        assert(shorter[n]@ == other);
                        let m = choose|m: int| 0 <= m < before.len() && (#[trigger] before[m])@ == other;
                        let now = if present || m < at { m } else { m + 1 };
                        assert(list@[now]@ == other);
                    } else {
                        assert(list@[at as int]@ == other);
                    }
                }
            }
        }
        k += 1;
    }
    assert(source@.take(k as int) =~= source@);
    list
}

/// Puts the constraints of a bar in their order along it, and the panels and kinds of
/// each in theirs.
pub fn order_constraints(constraints: &mut Vec<BarConstraint>)
    ensures
        along_bar(final(constraints)@, old(constraints)@),
{
    let ghost before = constraints@;
    let mut keys: Vec<i128> = Vec::new();
    let mut k: usize = 0;
    while k < constraints.len()
        invariant
            k <= constraints@.len(),
            keys@.len() == k,
            forall|m: int| 0 <= m < k ==> #[trigger] keys@[m] == constraints@[m].t.total_rank(),
        decreases constraints@.len() - k,
    {
        keys.push(constraints[k].t.total_key() as i128);
        k += 1;
    }
    let order = sorted_indices(&keys);
    let mut list: Vec<BarConstraint> = Vec::new();
    let mut k: usize = 0;
    while k < order.len()
        invariant
            k <= order@.len(),
            constraints@ == before,
            order@.len() == before.len(),
            keys@.len() == before.len(),
            stable_order(keys@, order@),
            list@.len() == k,
            forall|m: int| 0 <= m < k ==> tidied(before[order@[m] as int], #[trigger] list@[m]),
        decreases order@.len() - k,
    {
        let source = &constraints[order[k]];
        list.push(
            BarConstraint {
                t: source.t,
                source_node_id: source.source_node_id,
                kinds: sort_texts(&source.kinds),
                panel_ids: unique(copy_ids(&source.panel_ids)),
            },
        );
        k += 1;
    }
    *constraints = list;
    proof {
        assert(constraint_keys(keys@, before) && stable_order(keys@, order@));
    }
}

pub open spec fn place_keys(keys: Seq<Vec<i128>>, points: Seq<Point>) -> bool {
    &&& keys.len() == 3
    &&& forall|d: int, k: int|
        0 <= d < 3 && 0 <= k < points.len() ==> keys[d]@.len() == points.len() && #[trigger] keys[d]@[k]
            == points[k][d].total_rank()
}

/// The points by their first coordinate, then the second and the third.
pub open spec fn by_place(after: Seq<Point>, before: Seq<Point>) -> bool {
    exists|keys: Seq<Vec<i128>>, order: Seq<usize>| #[trigger]
        place_keys(keys, before) && #[trigger] ordered_by(keys, 0, before.len() as int, order) && after
            =~= Seq::new(before.len(), |k: int| before[order[k] as int])
}

fn coordinate_keys(points: &Vec<Point>, d: usize) -> (keys: Vec<i128>)
    requires
        d < 3,
    ensures
        keys@.len() == points@.len(),
        forall|k: int| 0 <= k < points@.len() ==> #[trigger] keys@[k] == points@[k][d as int].total_rank(),
{
    let mut keys: Vec<i128> = Vec::new();
    let mut k: usize = 0;
    while k < points.len()
        invariant
            d < 3,
            k <= points@.len(),
            keys@.len() == k,
            forall|m: int| 0 <= m < k ==> #[trigger] keys@[m] == points@[m][d as int].total_rank(),
        decreases points@.len() - k,
    {
        let p: Point = points[k];
        keys.push(p[d].total_key() as i128);
        k += 1;
    }
    keys
}

/// Puts the constraint points of a panel in their order.
pub fn order_points(points: &mut Vec<Point>)
    ensures
        by_place(final(points)@, old(points)@),
{
    let ghost before = points@;
    let mut keys: Vec<Vec<i128>> = Vec::new();
    keys.push(coordinate_keys(points, 0));
    keys.push(coordinate_keys(points, 1));
    keys.push(coordinate_keys(points, 2));
    let order = sorted_by_keys(&keys, points.len());
    assert(place_keys(keys@, before));
    let mut list: Vec<Point> = Vec::new();
    let mut k: usize = 0;
    while k < order.len()
        invariant
            k <= order@.len(),
            points@ == before,
            ordered_by(keys@, 0, before.len() as int, order@),
            list@.len() == k,
            forall|m: int| 0 <= m < k ==> #[trigger] list@[m] == before[order@[m] as int],
        decreases order@.len() - k,
    {
        list.push(points[order[k]]);
        k += 1;
    }
    *points = list;
}

/// Records how far apart the bars of a joint ended up.
pub fn note_gap(stats: &mut BarContactSummary, node: u32, gap: &Scalar)
    ensures
        final(stats).unresolved_bar_junctions@ == if (Scalar { bits: AXIS_RESIDUAL }).lt(*gap) {
            old(stats).unresolved_bar_junctions@.push(node)
        } else {
            old(stats).unresolved_bar_junctions@
        },
        final(stats).numerical_residual_nodes@ == if !(Scalar { bits: AXIS_RESIDUAL }).lt(*gap) && (Scalar {
            bits: PRECISION,
        }).lt(*gap) {
            old(stats).numerical_residual_nodes@.push(node)
        } else {
            old(stats).numerical_residual_nodes@
        },
        *final(stats) == (BarContactSummary {
            unresolved_bar_junctions: final(stats).unresolved_bar_junctions,
            numerical_residual_nodes: final(stats).numerical_residual_nodes,
            ..*old(stats)
        }),
{
    if (Scalar { bits: AXIS_RESIDUAL }).less(gap) {
        stats.unresolved_bar_junctions.push(node);
    } else if (Scalar { bits: PRECISION }).less(gap) {
        stats.numerical_residual_nodes.push(node);
    }
}

/// By what two outcomes are compared: open joints, missing incidence, rejected
/// groups, rejected crossings.
#[derive(Debug, Clone, Copy, PartialEq, Eq, Structural)]
pub struct ContactQuality {
    pub junctions: usize,
    pub missing: usize,
    pub rejected: usize,
    pub crossings: usize,
}

pub open spec fn better(a: ContactQuality, b: ContactQuality) -> bool {
    a.junctions < b.junctions || (a.junctions == b.junctions && (a.missing < b.missing || (a.missing == b.missing && (
    a.rejected < b.rejected || (a.rejected == b.rejected && a.crossings < b.crossings)))))
}

pub open spec fn missing_total(list: Seq<NodePanels>, upto: int) -> nat
    decreases upto,
{
    if upto <= 0 {
        0
    } else {
        missing_total(list, upto - 1) + list[upto - 1].panel_ids@.len()
    }
}

proof fn missing_total_grows(list: Seq<NodePanels>, a: int, b: int)
    requires
        0 <= a <= b,
    ensures
        missing_total(list, a) <= missing_total(list, b),
    decreases b - a,
{
    if a < b {
        missing_total_grows(list, a, b - 1);
    }
}

pub open spec fn quality_of(stats: BarContactSummary) -> ContactQuality {
    ContactQuality {
        junctions: stats.unresolved_bar_junctions@.len() as usize,
        missing: missing_total(
            stats.unresolved_panel_ids_by_node@,
            stats.unresolved_panel_ids_by_node@.len() as int,
        ) as usize,
        rejected: stats.rejected_node_ids@.len() as usize,
        crossings: stats.rejected_crossing_details@.len() as usize,
    }
}

/// How good an outcome is.
pub fn contact_quality(stats: &BarContactSummary) -> (r: ContactQuality)
    requires
        missing_total(
            stats.unresolved_panel_ids_by_node@,
            stats.unresolved_panel_ids_by_node@.len() as int,
        ) <= usize::MAX,
    ensures
        r == quality_of(*stats),
{
    let list = &stats.unresolved_panel_ids_by_node;
    let mut missing: usize = 0;
    let mut k: usize = 0;
    while k < list.len()
        invariant
            k <= list@.len(),
            missing_total(list@, list@.len() as int) <= usize::MAX,
            missing == missing_total(list@, k as int),
        decreases list@.len() - k,
    {
        proof {
            missing_total_grows(list@, k + 1, list@.len() as int);
        }
        missing += list[k].panel_ids.len();
        k += 1;
    }
    ContactQuality {
        junctions: stats.unresolved_bar_junctions.len(),
        missing,
        rejected: stats.rejected_node_ids.len(),
        crossings: stats.rejected_crossing_details.len(),
    }
}

#[derive(Debug, Clone, Copy, PartialEq, Eq, Structural)]
pub enum TrialVerdict {
    Displaced,
    Improved,
    NoImprovement,
}

pub open spec fn verdict_of(
    candidate: ContactQuality,
    baseline: ContactQuality,
    bar_movement: Scalar,
    panel_movement: Scalar,
    limit: Scalar,
) -> TrialVerdict {
    if limit.lt(bar_movement) || limit.lt(panel_movement) {
        TrialVerdict::Displaced
    } else if better(candidate, baseline) {
        TrialVerdict::Improved
    } else {
        TrialVerdict::NoImprovement
    }
}

/// Judges a trial with turned planes. It must keep within the movement limit and be
/// better than what there is.
pub fn judge_trial(
    candidate: &ContactQuality,
    baseline: &ContactQuality,
    bar_movement: &Scalar,
    panel_movement: &Scalar,
    limit: &Scalar,
) -> (r: TrialVerdict)
    ensures
        r == verdict_of(*candidate, *baseline, *bar_movement, *panel_movement, *limit),
{
    if limit.less(bar_movement) || limit.less(panel_movement) {
        return TrialVerdict::Displaced;
    }
    let improves: bool = candidate.junctions < baseline.junctions || (candidate.junctions == baseline.junctions && (
    candidate.missing < baseline.missing || (candidate.missing == baseline.missing && (candidate.rejected
        < baseline.rejected || (candidate.rejected == baseline.rejected && candidate.crossings
        < baseline.crossings)))));
    if improves {
        TrialVerdict::Improved
    } else {
        TrialVerdict::NoImprovement
    }
}

pub open spec fn verdict_text(verdict: TrialVerdict) -> Seq<char> {
    match verdict {
        TrialVerdict::Displaced => "cumulative_displacement"@,
        TrialVerdict::Improved => "improved_contacts"@,
        TrialVerdict::NoImprovement => "no_contact_improvement"@,
    }
}

pub fn verdict_reason(verdict: TrialVerdict) -> (r: String)
    ensures
        r@ == verdict_text(verdict),
{
    match verdict {
        TrialVerdict::Displaced => "cumulative_displacement".to_string(),
        TrialVerdict::Improved => "improved_contacts".to_string(),
        TrialVerdict::NoImprovement => "no_contact_improvement".to_string(),
    }
}

/// Whether a failed trial is worth more mention than the one on record: none was
/// accepted, and it left less missing.
pub fn mentions_instead(recorded: &RotationTrial, missing: Option<usize>) -> (r: bool)
    ensures
        r == (!recorded.accepted && match recorded.candidate_missing_incidences {
            None => true,
            Some(before) => before > match missing {
                Some(now) => now,
                None => usize::MAX,
            },
        }),
{
    if recorded.accepted {
        return false;
    }
    match recorded.candidate_missing_incidences {
        None => true,
        Some(before) => match missing {
            Some(now) => before > now,
            None => before > usize::MAX,
        },
    }
}

/// No trial makes things worse: what replaces a baseline is better than it.
pub proof fn accepted_trial_is_better(
    candidate: ContactQuality,
    baseline: ContactQuality,
    bar_movement: Scalar,
    panel_movement: Scalar,
    limit: Scalar,
)
    requires
        verdict_of(candidate, baseline, bar_movement, panel_movement, limit) == TrialVerdict::Improved,
    ensures
        better(candidate, baseline),
        !better(baseline, candidate),
        !limit.lt(bar_movement),
        !limit.lt(panel_movement),
{
}

/// A search for which incidences are asked. Unless it is concluded, it fails by running
/// out of iterations.
pub fn start_search(requested: usize) -> (r: CoupledPlaneSearch)
    ensures
        r.iterations == 0,
        r.requested_incidence_count == requested,
        r.retained_incidence_count == requested,
        r.relaxed_incidence_pairs@.len() == 0,
        r.frozen_panel_ids@.len() == 0,
        r.final_axis_residual == Scalar::spec_zero(),
        r.final_plane_residual == Scalar::spec_zero(),
        r.failure_reason is Some,
        r.failure_reason->0@ == "iteration_limit"@,
{
    let mut r = CoupledPlaneSearch::default();
    r.requested_incidence_count = requested;
    r.retained_incidence_count = requested;
    r.failure_reason = Some("iteration_limit".to_string());
    r
}

/// How many iterations a search may take: more with panels than without.
pub fn iteration_limit(panels: usize) -> (r: usize)
    ensures
        r == (if panels == 0 {
            10000int
        } else {
            30000int
        }),
{
    if panels == 0 {
        10000
    } else {
        30000
    }
}

/// Records an iteration of a search with the errors it left.
pub fn note_iteration(search: &mut CoupledPlaneSearch, iteration: usize, axis_error: &Scalar, plane_error: &Scalar)
    requires
        iteration < usize::MAX,
    ensures
        *final(search) == (CoupledPlaneSearch {
            iterations: (iteration + 1) as usize,
            final_axis_residual: *axis_error,
            final_plane_residual: *plane_error,
            ..*old(search)
        }),
{
    search.iterations = iteration + 1;
    search.final_axis_residual = *axis_error;
    search.final_plane_residual = *plane_error;
}

/// Whether a search has come to rest: both errors are small.
pub fn is_at_rest(axis_error: &Scalar, plane_error: &Scalar) -> (r: bool)
    ensures
        r == (axis_error.lt(Scalar { bits: AXIS_RESIDUAL }) && plane_error.lt(Scalar { bits: PLANE_REST })),
{
    axis_error.less(&Scalar { bits: AXIS_RESIDUAL }) && plane_error.less(&Scalar { bits: PLANE_REST })
}

/// Whether the coupled search lets go of incidences now: in rounds, while it has not
/// settled, and not of the last one.
pub fn relaxes_now(iteration: usize, plane_error: &Scalar, axis_error: &Scalar, equations: usize) -> (r: bool)
    ensures
        r == (iteration % 500 == 499 && iteration < 16000 && ((Scalar { bits: PRECISION }).lt(*plane_error) || (
        Scalar { bits: AXIS_RESIDUAL }).lt(*axis_error)) && equations > 1),
{
    iteration % 500 == 499 && iteration < 16000 && ((Scalar { bits: PRECISION }).less(plane_error) || (Scalar {
        bits: AXIS_RESIDUAL,
    }).less(axis_error)) && equations > 1
}

pub open spec fn gap_keys(keys: Seq<i128>, gaps: Seq<Scalar>) -> bool {
    &&& keys.len() == gaps.len()
    &&& forall|k: int| 0 <= k < gaps.len() ==> #[trigger] keys[k] == -gaps[k].total_rank()
}

/// How many incidences a round may let go of.
pub open spec fn round_size(count: int) -> int {
    if count / 10 > 1 {
        count / 10
    } else {
        1
    }
}

pub open spec fn let_go(order: Seq<usize>, gaps: Seq<Scalar>, upto: int) -> Seq<usize>
    decreases upto,
{
    if upto <= 0 {
        Seq::empty()
    } else if (Scalar { bits: PRECISION }).lt(gaps[order[upto - 1] as int]) {
        let_go(order, gaps, upto - 1).push(order[upto - 1])
    } else {
        let_go(order, gaps, upto - 1)
    }
}

pub open spec fn relaxed(removed: Seq<usize>, gaps: Seq<Scalar>) -> bool {
    exists|keys: Seq<i128>, order: Seq<usize>|
        gap_keys(keys, gaps) && #[trigger] stable_order(keys, order) && lists_distinct_indices(
            removed,
            let_go(order, gaps, round_size(gaps.len() as int)),
        )
}

/// The incidences that a round lets go of: the worst tenth, at least one, and none
/// that is satisfied.
#[verifier::loop_isolation(false)]
pub fn relax(gaps: &Vec<Scalar>) -> (r: Vec<usize>)
    requires
        gaps@.len() > 0,
    ensures
        relaxed(r@, gaps@),
{
    let mut keys: Vec<i128> = Vec::new();
    let mut k: usize = 0;
    while k < gaps.len()
        invariant
            k <= gaps@.len(),
            keys@.len() == k,
            forall|m: int| 0 <= m < k ==> #[trigger] keys@[m] == -gaps@[m].total_rank(),
        decreases gaps@.len() - k,
    {
        keys.push(-(gaps[k].total_key() as i128));
        k += 1;
    }
    let order = sorted_indices(&keys);
    let count: usize = if gaps.len() / 10 > 1 {
        gaps.len() / 10
    } else {
        1
    };
    let mut removed: Vec<usize> = Vec::new();
    let mut k: usize = 0;
    while k < count
        invariant
            k <= count <= gaps@.len(),
            removed@ == let_go(order@, gaps@, k as int),
        decreases count - k,
    {
        if (Scalar { bits: PRECISION }).less(&gaps[order[k]]) {
            removed.push(order[k]);
        }
        k += 1;
    }
    assert(gap_keys(keys@, gaps@) && stable_order(keys@, order@));
    unique_indices(removed)
}

/// What is measured of a bar in a solution of the coupled search.
#[derive(Debug)]
pub struct BarSolution {
    /// Its length with room for rounding, and what it must reach.
    pub length: [Scalar; 2],
    /// Product of its old and its new direction.
    pub direction: Scalar,
    /// Place of each of its constraints.
    pub parameters: Vec<Scalar>,
    /// How far each constraint moved.
    pub movements: Vec<Scalar>,
    /// Distances between neighbouring constraints with room for rounding, and what
    /// they must reach.
    pub spacings: Vec<[Scalar; 2]>,
}

/// What is measured of a solution of the coupled search.
#[derive(Debug)]
pub struct SolutionMeasure {
    pub bars: Vec<BarSolution>,
    pub movement_limit: Scalar,
}

pub open spec fn some_short(pairs: Seq<[Scalar; 2]>) -> bool {
    exists|k: int| 0 <= k < pairs.len() && (#[trigger] pairs[k])[0].lt(pairs[k][1])
}

/// The bar is too short or was turned round.
pub open spec fn spoilt(bar: BarSolution) -> bool {
    bar.length[0].lt(bar.length[1]) || bar.direction.le(Scalar::spec_zero())
}

pub open spec fn some_off(parameters: Seq<Scalar>, movements: Seq<Scalar>, limit: Scalar) -> bool {
    ||| exists|k: int|
        0 <= k < parameters.len() && ((#[trigger] parameters[k]).le(Scalar::spec_zero()) || Scalar::spec_one().le(
            parameters[k],
        ))
    ||| exists|k: int| 0 <= k < movements.len() && limit.lt(#[trigger] movements[k])
}

/// What the constraints of a bar suffer from: first where they are, then how close.
pub open spec fn constraint_fault(bar: BarSolution, limit: Scalar) -> Option<Seq<char>> {
    if some_off(bar.parameters@, bar.movements@, limit) {
        Some("anchor_displacement"@)
    } else if some_short(bar.spacings@) {
        Some("constraint_spacing"@)
    } else {
        None
    }
}

/// The fault of the first bar whose constraints have one.
pub open spec fn first_constraint_fault(bars: Seq<BarSolution>, limit: Scalar, from: int) -> Option<Seq<char>>
    decreases bars.len() - from,
{
    if from >= bars.len() {
        None
    } else {
        match constraint_fault(bars[from], limit) {
            Some(fault) => Some(fault),
            None => first_constraint_fault(bars, limit, from + 1),
        }
    }
}

pub open spec fn solution_fault(measure: SolutionMeasure) -> Option<Seq<char>> {
    if exists|k: int| 0 <= k < measure.bars@.len() && spoilt(#[trigger] measure.bars@[k]) {
        Some("axis_quality"@)
    } else {
        first_constraint_fault(measure.bars@, measure.movement_limit, 0)
    }
}

fn has_short(pairs: &Vec<[Scalar; 2]>) -> (r: bool)
    ensures
        r == some_short(pairs@),
{
    let mut k: usize = 0;
    while k < pairs.len()
        invariant
            k <= pairs@.len(),
            forall|m: int| 0 <= m < k ==> !(#[trigger] pairs@[m])[0].lt(pairs@[m][1]),
        decreases pairs@.len() - k,
    {
        let pair: [Scalar; 2] = pairs[k];
        if pair[0].less(&pair[1]) {
            assert(pairs@[k as int][0].lt(pairs@[k as int][1]));
            return true;
        }
        k += 1;
    }
    false
}

fn has_off(parameters: &Vec<Scalar>, movements: &Vec<Scalar>, limit: &Scalar) -> (r: bool)
    ensures
        r == some_off(parameters@, movements@, *limit),
{
    let mut k: usize = 0;
    while k < parameters.len()
        invariant
            k <= parameters@.len(),
            forall|m: int| 0 <= m < k ==> !((#[trigger] parameters@[m]).le(Scalar::spec_zero()) || Scalar::spec_one().le(parameters@[m])),
        decreases parameters@.len() - k,
    {
        if parameters[k].at_most(&Scalar::zero()) || Scalar::one().at_most(&parameters[k]) {
            assert(parameters@[k as int].le(Scalar::spec_zero()) || Scalar::spec_one().le(parameters@[k as int]));
            return true;
        }
        k += 1;
    }
    let mut k: usize = 0;
    while k < movements.len()
        invariant
            k <= movements@.len(),
            forall|m: int| 0 <= m < k ==> !limit.lt(#[trigger] movements@[m]),
        decreases movements@.len() - k,
    {
        if limit.less(&movements[k]) {
            assert(limit.lt(movements@[k as int]));
            return true;
        }
        k += 1;
    }
    false
}

/// Checks a solution. A failed one leaves everything as it was.
pub fn check_solution(measure: &SolutionMeasure) -> (r: Result<(), &'static str>)
    ensures
        match r {
            Ok(_) => solution_fault(*measure) is None,
            Err(error) => solution_fault(*measure) == Some(error@),
        },
{
    let mut k: usize = 0;
    while k < measure.bars.len()
        invariant
            k <= measure.bars@.len(),
            forall|m: int| 0 <= m < k ==> !spoilt(#[trigger] measure.bars@[m]),
        decreases measure.bars@.len() - k,
    {
        let bar = &measure.bars[k];
        if bar.length[0].less(&bar.length[1]) || bar.direction.at_most(&Scalar::zero()) {
            assert(spoilt(measure.bars@[k as int]));
            return Err("axis_quality");
        }
        k += 1;
    }
    let mut k: usize = 0;
    while k < measure.bars.len()
        invariant
            k <= measure.bars@.len(),
            forall|m: int| 0 <= m < measure.bars@.len() ==> !spoilt(#[trigger] measure.bars@[m]),
            first_constraint_fault(measure.bars@, measure.movement_limit, 0) == first_constraint_fault(
                measure.bars@,
                measure.movement_limit,
                k as int,
            ),
        decreases measure.bars@.len() - k,
    {
        let bar = &measure.bars[k];
        if has_off(&bar.parameters, &bar.movements, &measure.movement_limit) {
            return Err("anchor_displacement");
        }
        if has_short(&bar.spacings) {
            return Err("constraint_spacing");
        }
        k += 1;
    }
    Ok(())
}

/// The panel that leads each panel: the first one in the same plane.
pub open spec fn leads(same: Seq<Vec<bool>>, i: int, leader: int) -> bool {
    &&& 0 <= leader <= i
    &&& leader < i ==> same[i]@[leader]
    &&& forall|j: int| 0 <= j < leader ==> !#[trigger] same[i]@[j]
}

/// Finds the leaders. `same` says which earlier panels lie in the plane of a panel.
#[verifier::loop_isolation(false)]
pub fn leaders(same: &Vec<Vec<bool>>) -> (r: Vec<usize>)
    requires
        forall|i: int| 0 <= i < same@.len() ==> (#[trigger] same@[i])@.len() == i,
    ensures
        r@.len() == same@.len(),
        forall|i: int| 0 <= i < same@.len() ==> leads(same@, i, #[trigger] r@[i] as int),
{
    let mut r: Vec<usize> = Vec::new();
    let mut i: usize = 0;
    while i < same.len()
        invariant
            i <= same@.len(),
            r@.len() == i,
            forall|m: int| 0 <= m < i ==> leads(same@, m, #[trigger] r@[m] as int),
        decreases same@.len() - i,
    {
        let list = &same[i];
        assert(same@[i as int]@.len() == i);
        let mut j: usize = 0;
        while j < i && !list[j]
            invariant
                *list == same@[i as int],
                list@.len() == i,
                j <= i,
                forall|m: int| 0 <= m < j ==> !#[trigger] list@[m],
            decreases i - j,
        {
            j += 1;
        }
        r.push(j);
        i += 1;
    }
    r
}

pub open spec fn leaders_of(affected: Seq<usize>, leaders: Seq<usize>) -> Seq<usize> {
    Seq::new(affected.len(), |k: int| leaders[affected[k] as int])
}

/// Freezes the planes of panels that did not take their shift. It says whether any
/// plane was still free.
#[verifier::loop_isolation(false)]
pub fn freeze(frozen: &mut Vec<usize>, affected: &Vec<usize>, leaders: &Vec<usize>) -> (r: bool)
    requires
        ascending_indices(old(frozen)@),
        forall|k: int| 0 <= k < affected@.len() ==> #[trigger] affected@[k] < leaders@.len(),
    ensures
        lists_distinct_indices(final(frozen)@, old(frozen)@ + leaders_of(affected@, leaders@)),
        r == (final(frozen)@.len() != old(frozen)@.len()),
{
    let previous: usize = frozen.len();
    let mut all = copy_indices(frozen);
    let mut k: usize = 0;
    while k < affected.len()
        invariant
            k <= affected@.len(),
            all@ =~= old(frozen)@ + leaders_of(affected@, leaders@).take(k as int),
        decreases affected@.len() - k,
    {
        assert(affected@[k as int] < leaders@.len());
        all.push(leaders[affected[k]]);
        k += 1;
    }
    assert(all@ =~= old(frozen)@ + leaders_of(affected@, leaders@));
    *frozen = unique_indices(all);
    frozen.len() != previous
}

/// The elements of the bars at a node.
pub open spec fn bar_sources(bars: Seq<MacroBar>, node: u32, upto: int) -> Seq<u32>
    decreases upto,
{
    if upto <= 0 {
        Seq::empty()
    } else if bar_anchors((upto - 1) as usize, bars[upto - 1], node).len() > 0 {
        bar_sources(bars, node, upto - 1) + bars[upto - 1].source_element_ids@
    } else {
        bar_sources(bars, node, upto - 1)
    }
}

proof fn interior_found(bar: usize, constraints: Seq<BarConstraint>, node: u32, upto: int)
    requires
        0 <= upto <= constraints.len(),
    ensures
        interior_anchors(bar, constraints, node, upto).len() > 0 <==> exists|c: int|
            0 <= c < upto && (#[trigger] constraints[c]).source_node_id == Some(node),
    decreases upto,
{
    if upto > 0 {
        interior_found(bar, constraints, node, upto - 1);
        if interior_anchors(bar, constraints, node, upto).len() > 0 {
            if constraints[upto - 1].source_node_id != Some(node) {
                let c = choose|c: int| 0 <= c < upto - 1 && (#[trigger] constraints[c]).source_node_id == Some(node);
                assert(constraints[c].source_node_id == Some(node));
            }
        }
    }
}

fn meets_node(bar: &MacroBar, index: usize, node: u32) -> (r: bool)
    ensures
        r == (bar_anchors(index, *bar, node).len() > 0),
{
    proof {
        interior_found(index, bar.constraints@, node, bar.constraints@.len() as int);
    }
    if bar.start_node_id == node || bar.end_node_id == node {
        return true;
    }
    let mut c: usize = 0;
    while c < bar.constraints.len()
        invariant
            c <= bar.constraints@.len(),
            forall|m: int| 0 <= m < c ==> (#[trigger] bar.constraints@[m]).source_node_id != Some(node),
        decreases bar.constraints@.len() - c,
    {
        match bar.constraints[c].source_node_id {
            Some(own) => {
                if own == node {
                    proof {
                        interior_found(index, bar.constraints@, node, bar.constraints@.len() as int);
                        assert(bar.constraints@[c as int].source_node_id == Some(node));
                        assert(interior_anchors(index, bar.constraints@, node, bar.constraints@.len() as int).len() > 0);
                    }
                    return true;
                }
            },
            None => {},
        }
        c += 1;
    }
    false
}

/// The elements behind a missing contact, ascending.
pub fn contact_sources(bars: &Vec<MacroBar>, node: u32) -> (r: Vec<u32>)
    ensures
        lists_distinct(r@, bar_sources(bars@, node, bars@.len() as int)),
{
    let mut all: Vec<u32> = Vec::new();
    let mut b: usize = 0;
    while b < bars.len()
        invariant
            b <= bars@.len(),
            all@ == bar_sources(bars@, node, b as int),
        decreases bars@.len() - b,
    {
        if meets_node(&bars[b], b, node) {
            append_ids(&mut all, &bars[b].source_element_ids);
        }
        b += 1;
    }
    unique(all)
}

/// What is measured of a whole axis that is moved onto nearly parallel planes.
#[derive(Debug, Clone, Copy)]
pub struct AxisFit {
    pub movements: [Scalar; 2],
    pub limit: Scalar,
    /// New length with room for rounding, and what it must reach.
    pub length: Scalar,
    pub required: Scalar,
    /// Product of old and new direction.
    pub direction: Scalar,
}

pub open spec fn fit_allowed(fit: AxisFit) -> bool {
    &&& fit.movements[0].le(fit.limit)
    &&& fit.movements[1].le(fit.limit)
    &&& fit.required.le(fit.length)
    &&& Scalar::spec_zero().lt(fit.direction)
}

pub open spec fn fit_moves(fit: AxisFit) -> bool {
    (Scalar { bits: PRECISION }).lt(fit.movements[0]) || (Scalar { bits: PRECISION }).lt(fit.movements[1])
}

/// Whether an axis takes a fit. Fits that move it are counted.
pub fn take_axis_fit(stats: &mut BarContactSummary, fit: &AxisFit) -> (r: bool)
    requires
        old(stats).fitted_axes < usize::MAX,
    ensures
        r == fit_allowed(*fit),
        final(stats).fitted_axes == old(stats).fitted_axes + (if fit_allowed(*fit) && fit_moves(*fit) {
            1int
        } else {
            0int
        }),
        *final(stats) == (BarContactSummary { fitted_axes: final(stats).fitted_axes, ..*old(stats) }),
{
    if !(fit.movements[0].at_most(&fit.limit) && fit.movements[1].at_most(&fit.limit) && fit.required.at_most(
        &fit.length,
    ) && Scalar::zero().less(&fit.direction)) {
        return false;
    }
    if (Scalar { bits: PRECISION }).less(&fit.movements[0]) || (Scalar { bits: PRECISION }).less(&fit.movements[1]) {
        stats.fitted_axes += 1;
    }
    true
}

/// A rejected node is on record under its reason, and no record is lost.
pub proof fn rejections_are_recorded(before: Seq<Rejections>, after: Seq<Rejections>, node: u32, reason: Seq<char>)
    requires
        reason_added(before, after, node, reason),
    ensures
        exists|k: int| 0 <= k < after.len() && (#[trigger] after[k]).reason@ == reason && after[k].nodes@.contains(node),
        before.len() <= after.len(),
        forall|k: int| 0 <= k < before.len() ==> (#[trigger] after[k]).reason@ == before[k].reason@,
        forall|k: int, other: u32|
            0 <= k < before.len() && #[trigger] before[k].nodes@.contains(other) ==> (#[trigger] after[k]).nodes@.contains(other),
        forall|k: int|
            0 <= k < before.len() && before[k].reason@ != reason ==> (#[trigger] after[k]).nodes@ == before[k].nodes@,
{
    if exists|k: int| 0 <= k < before.len() && (#[trigger] before[k]).reason@ == reason {
        let k = choose|k: int| 0 <= k < before.len() && (#[trigger] before[k]).reason@ == reason;
        pushed_contains(before[k].nodes@, node, node);
        assert(after[k].nodes@.contains(node));
        assert forall|k: int, other: u32|
            0 <= k < before.len() && #[trigger] before[k].nodes@.contains(other) implies (#[trigger] after[k]).nodes@.contains(other) by {
            pushed_contains(before[k].nodes@, node, other);
        }
    } else {
        let last = after.len() - 1;
        assert(after[last].nodes@[0] == node);
        assert(after[last].nodes@.contains(node));
        assert forall|k: int| 0 <= k < before.len() implies after[k] == before[k] by {
            assert(after.drop_last()[k] == before[k]);
        }
    }
}

/// A panel counts for a node exactly when all points of the node project into it.
pub proof fn fitting_panels_are_listed(fits: Seq<bool>, upto: int, p: usize)
    requires
        0 <= upto <= fits.len(),
        upto <= usize::MAX,
    ensures
        fitting(fits, upto).contains(p) <==> p < upto && fits[p as int],
        ascending_indices(fitting(fits, upto)),
        forall|k: int| 0 <= k < fitting(fits, upto).len() ==> #[trigger] fitting(fits, upto)[k] < upto,
    decreases upto,
{
    if upto > 0 {
        fitting_panels_are_listed(fits, upto - 1, p);
        pushed_contains(fitting(fits, upto - 1), (upto - 1) as usize, p);
    }
}

/// An inference puts a node on exactly the panels that it projects into, unless two of them
/// run parallel and apart. Then it is put on none.
pub proof fn inference_is_of_fitting_panels(
    before: BarContactSummary,
    after: BarContactSummary,
    incident_before: Map<u32, Seq<usize>>,
    incident_after: Map<u32, Seq<usize>>,
    node: u32,
    fits: Seq<bool>,
    clashes: Seq<(usize, usize)>,
    panel_ids: Seq<u32>,
    p: usize,
)
    requires
        inferred(before, after, incident_before, incident_after, node, fits, clashes, panel_ids),
        !incident_before.dom().contains(node),
        fits.len() <= usize::MAX,
    ensures
        incident_after.dom().contains(node) && incident_after[node].contains(p) ==> p < fits.len() && fits[p as int] && forall|
            k: int,
        |
            0 <= k < clashes.len() ==> !(fits[(#[trigger] clashes[k]).0 as int] && fits[clashes[k].1 as int]),
        p < fits.len() && fits[p as int] && (forall|k: int|
            0 <= k < clashes.len() ==> !(fits[(#[trigger] clashes[k]).0 as int] && fits[clashes[k].1 as int]))
            ==> incident_after.dom().contains(node) && incident_after[node].contains(p),
{
    fitting_panels_are_listed(fits, fits.len() as int, p);
}

proof fn interior_anchor_of(bar: usize, constraints: Seq<BarConstraint>, node: u32, upto: int, anchor: AnchorRef)
    requires
        0 <= upto <= constraints.len(),
        constraints.len() <= usize::MAX,
    ensures
        interior_anchors(bar, constraints, node, upto).contains(anchor) <==> anchor.bar == bar && (anchor.anchor matches Anchor::Interior(
            k,
        ) && k < upto && constraints[k as int].source_node_id == Some(node)),
    decreases upto,
{
    if upto > 0 {
        interior_anchor_of(bar, constraints, node, upto - 1, anchor);
        pushed_contains(
            interior_anchors(bar, constraints, node, upto - 1),
            AnchorRef { bar, anchor: Anchor::Interior((upto - 1) as usize) },
            anchor,
        );
    }
}

/// A bar is anchored at a node exactly with those of its ends and constraints that have it.
pub proof fn anchors_are_at_their_node(bar: usize, axis: MacroBar, node: u32, anchor: AnchorRef)
    requires
        axis.constraints@.len() <= usize::MAX,
    ensures
        bar_anchors(bar, axis, node).contains(anchor) <==> anchor.bar == bar && match anchor.anchor {
            Anchor::Start => axis.start_node_id == node,
            Anchor::End => axis.end_node_id == node,
            Anchor::Interior(k) => k < axis.constraints@.len() && axis.constraints@[k as int].source_node_id == Some(node),
        },
{
    interior_anchor_of(bar, axis.constraints@, node, axis.constraints@.len() as int, anchor);
    let start = AnchorRef { bar, anchor: Anchor::Start };
    let end = AnchorRef { bar, anchor: Anchor::End };
    let first = with_anchor(Seq::empty(), axis.start_node_id == node, start);
    let ends = with_anchor(first, axis.end_node_id == node, end);
    let inner = interior_anchors(bar, axis.constraints@, node, axis.constraints@.len() as int);
    pushed_contains(Seq::<AnchorRef>::empty(), start, anchor);
    pushed_contains(first, end, anchor);
    let all = ends + inner;
    assert(all.contains(anchor) <==> ends.contains(anchor) || inner.contains(anchor)) by {
        if ends.contains(anchor) {
            let m = choose|m: int| 0 <= m < ends.len() && ends[m] == anchor;
            assert(all[m] == anchor);
        }
        if inner.contains(anchor) {
            let m = choose|m: int| 0 <= m < inner.len() && inner[m] == anchor;
            assert(all[ends.len() + m] == anchor);
        }
        if all.contains(anchor) {
            let m = choose|m: int| 0 <= m < all.len() && all[m] == anchor;
            if m < ends.len() {
                assert(ends[m] == anchor);
            } else {
                assert(inner[m - ends.len()] == anchor);
            }
        }
    }
}

/// Constraints of a group come before ends; among either the longer bars come first.
pub proof fn constraints_come_before_ends(
    keys: Seq<Vec<i128>>,
    anchors: Seq<AnchorRef>,
    lengths: Seq<Scalar>,
    order: Seq<usize>,
    i: int,
    j: int,
)
    requires
        anchor_keys(keys, anchors, lengths),
        ordered_by(keys, 0, anchors.len() as int, order),
        0 <= i < j < order.len(),
    ensures
        ({
            let (a, b) = (anchors[order[i] as int], anchors[order[j] as int]);
            &&& b.anchor is Interior ==> a.anchor is Interior
            &&& (a.anchor is Interior) == (b.anchor is Interior) ==> lengths[b.bar as int].total_rank()
                <= lengths[a.bar as int].total_rank()
        }),
        order[i] != order[j],
{
    reveal_with_fuel(before_by, 4);
    let (x, y) = (order[i], order[j]);
    assert(before_by(keys, 0, x, y));
    assert(keys[0]@[x as int] == keys[0]@[x as int] && keys[0]@[y as int] == keys[0]@[y as int]);
}

/// A group goes to the closest point that can be accepted; of the points it did not go to,
/// those that are closer cannot be.
pub proof fn closest_point_is_chosen(candidates: Seq<PlaceCandidate>, k: int, m: int)
    requires
        closest_acceptable(candidates, k),
        0 <= m < candidates.len(),
    ensures
        candidates[k].acceptable,
        candidates[m].distance.total_rank() < candidates[k].distance.total_rank() ==> !candidates[m].acceptable,
        closest_acceptable(candidates, m) ==> m == k,
{
    if closest_acceptable(candidates, m) {
        assert(candidates[k].acceptable && candidates[m].acceptable);
    }
}

/// Why a group goes nowhere: first that a surface is too far, then that nothing is common to
/// all, then that no point can be accepted.
pub proof fn choices_fail_in_order(measure: ChoiceMeasure)
    ensures
        choice_error(measure) is None <==> measure.all_near && measure.projected && exists|m: int|
            0 <= m < measure.candidates@.len() && (#[trigger] measure.candidates@[m]).acceptable,
        choice_error(measure) == Some("surface_outside_tolerance"@) <==> !measure.all_near,
        choice_error(measure) == Some("incompatible_axis_and_planes"@) <==> measure.all_near && !measure.projected,
{
    reveal_strlit("surface_outside_tolerance");
    reveal_strlit("incompatible_axis_and_planes");
    reveal_strlit("would_bend_axis_exceed_budget_or_create_short_constraint");
    assert("surface_outside_tolerance"@.len() == 25);
    assert("incompatible_axis_and_planes"@.len() == 28);
    assert("would_bend_axis_exceed_budget_or_create_short_constraint"@.len() == 56);
}

/// No partial choice keeps more surfaces than the best one; of those that keep as many, none
/// is closer.
pub proof fn best_choice_keeps_most(options: Seq<PartialChoice>, k: int, m: int)
    requires
        best_choice(options, k),
        0 <= m < options.len(),
    ensures
        options[m].compatible@.len() <= options[k].compatible@.len(),
        options[m].compatible@.len() == options[k].compatible@.len() ==> options[k].distance.total_rank()
            <= options[m].distance.total_rank(),
        best_choice(options, m) ==> m == k,
{
    assert(choice_before(options, k, choice_at(options, m)));
    if best_choice(options, m) {
        assert(choice_before(options, m, choice_at(options, k)));
    }
}

/// A surface of a group is left out exactly when the choice does not keep it.
pub proof fn left_out_surfaces_are_the_others(indices: Seq<usize>, compatible: Seq<usize>, upto: int, p: usize)
    requires
        0 <= upto <= indices.len(),
    ensures
        left_out(indices, compatible, upto).contains(p) <==> indices.take(upto).contains(p) && !compatible.contains(p),
    decreases upto,
{
    if upto > 0 {
        left_out_surfaces_are_the_others(indices, compatible, upto - 1, p);
        assert(indices.take(upto) =~= indices.take(upto - 1).push(indices[upto - 1]));
        pushed_contains(indices.take(upto - 1), indices[upto - 1], p);
        pushed_contains(left_out(indices, compatible, upto - 1), indices[upto - 1], p);
    }
}

/// An axis crosses a panel where it runs through the inside of it, away from its own ends and
/// not along it. The crossing is taken exactly when it makes no short piece.
pub proof fn crossings_make_no_short_piece(measure: CrossingMeasure)
    ensures
        crossing_of(measure) == Crossing::Absent <==> !measure.inside || measure.denominator.lt(
            Scalar { bits: 0x3e45_798e_e230_8c3a },
        ) || measure.t.le(Scalar { bits: 0x3e45_798e_e230_8c3a }) || measure.last.le(measure.t),
        crossing_of(measure) == Crossing::Taken ==> measure.inside && measure.shortest.le(measure.to_ends[0])
            && measure.shortest.le(measure.to_ends[1]) && forall|k: int|
            0 <= k < measure.gaps@.len() ==> (#[trigger] measure.gaps@[k])[0].le(Scalar { bits: 0x3e45_798e_e230_8c3a })
                || measure.shortest.le(measure.gaps@[k][1]),
        crossing_of(measure) == Crossing::TooClose ==> !measure.shortest.le(measure.to_ends[0]) || !measure.shortest.le(
            measure.to_ends[1],
        ) || exists|k: int|
            0 <= k < measure.gaps@.len() && !(#[trigger] measure.gaps@[k])[0].le(Scalar { bits: 0x3e45_798e_e230_8c3a })
                && !measure.shortest.le(measure.gaps@[k][1]),
{
    if crossing_of(measure) == Crossing::Taken {
        assert forall|k: int| 0 <= k < measure.gaps@.len() implies (#[trigger] measure.gaps@[k])[0].le(
            Scalar { bits: 0x3e45_798e_e230_8c3a },
        ) || measure.shortest.le(measure.gaps@[k][1]) by {
            assert(gap_allowed(measure.gaps@[k], measure.shortest));
        }
    }
    if crossing_of(measure) == Crossing::TooClose && measure.shortest.le(measure.to_ends[0]) && measure.shortest.le(measure.to_ends[1]) {
        let k = choose|k: int| 0 <= k < measure.gaps@.len() && !gap_allowed(#[trigger] measure.gaps@[k], measure.shortest);
        assert(!measure.gaps@[k][0].le(Scalar { bits: 0x3e45_798e_e230_8c3a }));
    }
}

/// A constraint that a panel crosses names the panel and says that a surface meets the bar
/// there; what it named and said before stays.
pub proof fn crossed_constraints_name_the_panel(before: BarConstraint, after: BarConstraint, panel_id: u32, other: u32)
    requires
        crossed(before, after, panel_id),
    ensures
        after.t == before.t,
        after.source_node_id == before.source_node_id,
        after.panel_ids@.contains(panel_id),
        after.panel_ids@.contains(other) <==> before.panel_ids@.contains(other) || other == panel_id,
        lists_text(after.kinds@, "surface_intersection"@),
        forall|text: Seq<char>| lists_text(before.kinds@, text) ==> #[trigger] lists_text(after.kinds@, text),
{
    pushed_contains(before.panel_ids@, panel_id, other);
    pushed_contains(before.panel_ids@, panel_id, panel_id);
    if !lists_text(before.kinds@, "surface_intersection"@) {
        assert(after.kinds@[after.kinds@.len() - 1]@ == "surface_intersection"@);
        assert forall|text: Seq<char>| lists_text(before.kinds@, text) implies #[trigger] lists_text(after.kinds@, text) by {
            let k = choose|k: int| 0 <= k < before.kinds@.len() && (#[trigger] before.kinds@[k])@ == text;
            assert(after.kinds@.drop_last()[k] == before.kinds@[k]);
            assert(after.kinds@[k]@ == text);
        }
    }
}

/// The constraint is in the list, tidied.
pub open spec fn kept_in(constraint: BarConstraint, list: Seq<BarConstraint>) -> bool {
    exists|k: int| 0 <= k < list.len() && tidied(constraint, #[trigger] list[k])
}

/// Constraints are put in order along their bar, each of them kept.
pub proof fn constraints_run_along_the_bar(after: Seq<BarConstraint>, before: Seq<BarConstraint>)
    requires
        along_bar(after, before),
        before.len() <= usize::MAX,
    ensures
        after.len() == before.len(),
        forall|i: int, j: int|
            0 <= i < j < after.len() ==> (#[trigger] after[i]).t.total_rank() <= (#[trigger] after[j]).t.total_rank(),
        forall|m: int| 0 <= m < before.len() ==> kept_in(#[trigger] before[m], after),
{
    let (keys, order) = choose|keys: Seq<i128>, order: Seq<usize>| #[trigger]
        constraint_keys(keys, before) && #[trigger] stable_order(keys, order) && after.len() == before.len() && forall|k: int|
            0 <= k < after.len() ==> tidied(before[order[k] as int], #[trigger] after[k]);
    assert forall|i: int, j: int| 0 <= i < j < after.len() implies (#[trigger] after[i]).t.total_rank() <= (#[trigger] after[j]).t.total_rank() by {
        assert(tidied(before[order[i] as int], after[i]));
        assert(tidied(before[order[j] as int], after[j]));
        assert(crate::ordering::key_before(keys, order[i], order[j]));
        assert(keys[order[i] as int] == before[order[i] as int].t.total_rank());
        assert(keys[order[j] as int] == before[order[j] as int].t.total_rank());
    }
    assert forall|m: int| 0 <= m < before.len() implies kept_in(#[trigger] before[m], after) by {
        assert(order.contains(m as usize));
        let k = choose|k: int| 0 <= k < order.len() && order[k] == m as usize;
        assert(tidied(before[m], after[k]));
    }
}

/// Points are put in order by x, then by y, then by z, each of them kept.
pub proof fn points_come_by_place(after: Seq<Point>, before: Seq<Point>)
    requires
        by_place(after, before),
        before.len() <= usize::MAX,
    ensures
        after.len() == before.len(),
        forall|i: int, j: int|
            0 <= i < j < after.len() ==> {
                let (a, b) = (#[trigger] after[i], #[trigger] after[j]);
                &&& a[0].total_rank() <= b[0].total_rank()
                &&& a[0] == b[0] ==> a[1].total_rank() <= b[1].total_rank()
                &&& a[0] == b[0] && a[1] == b[1] ==> a[2].total_rank() <= b[2].total_rank()
            },
        forall|point: Point| after.contains(point) <==> before.contains(point),
{
    let (keys, order) = choose|keys: Seq<Vec<i128>>, order: Seq<usize>| #[trigger]
        place_keys(keys, before) && #[trigger] ordered_by(keys, 0, before.len() as int, order) && after =~= Seq::new(
            before.len(),
            |k: int| before[order[k] as int],
        );
    reveal_with_fuel(before_by, 5);
    assert forall|i: int, j: int| 0 <= i < j < after.len() implies ({
        let (a, b) = (#[trigger] after[i], #[trigger] after[j]);
        &&& a[0].total_rank() <= b[0].total_rank()
        &&& a[0] == b[0] ==> a[1].total_rank() <= b[1].total_rank()
        &&& a[0] == b[0] && a[1] == b[1] ==> a[2].total_rank() <= b[2].total_rank()
    }) by {
        let (x, y) = (order[i], order[j]);
        assert(before_by(keys, 0, x, y));
        assert(keys[0]@[x as int] == before[x as int][0].total_rank() && keys[0]@[y as int] == before[y as int][0].total_rank());
        assert(keys[1]@[x as int] == before[x as int][1].total_rank() && keys[1]@[y as int] == before[y as int][1].total_rank());
        assert(keys[2]@[x as int] == before[x as int][2].total_rank() && keys[2]@[y as int] == before[y as int][2].total_rank());
    }
    assert forall|point: Point| after.contains(point) <==> before.contains(point) by {
        if after.contains(point) {
            let k = choose|k: int| 0 <= k < after.len() && after[k] == point;
            assert(before[order[k] as int] == point);
        }
        if before.contains(point) {
            let m = choose|m: int| 0 <= m < before.len() && before[m] == point;
            assert(order.contains(m as usize));
            let k = choose|k: int| 0 <= k < order.len() && order[k] == m as usize;
            assert(after[k] == point);
        }
    }
}

/// Outcomes are compared by open joints first, then by missing incidence, then by rejected
/// groups, then by rejected crossings. Fewer is better, and one of two different outcomes is.
pub proof fn fewer_open_joints_are_better(a: ContactQuality, b: ContactQuality, c: ContactQuality)
    ensures
        a.junctions < b.junctions ==> better(a, b),
        a.junctions == b.junctions && a.missing < b.missing ==> better(a, b),
        a.junctions == b.junctions && a.missing == b.missing && a.rejected < b.rejected ==> better(a, b),
        a.junctions == b.junctions && a.missing == b.missing && a.rejected == b.rejected && a.crossings < b.crossings
            ==> better(a, b),
        !(better(a, b) && better(b, a)),
        better(a, b) && better(b, c) ==> better(a, c),
        a == b <==> !better(a, b) && !better(b, a),
{
}

/// The quality of an outcome counts what it says.
pub proof fn quality_counts_what_is_open(stats: BarContactSummary)
    requires
        missing_total(stats.unresolved_panel_ids_by_node@, stats.unresolved_panel_ids_by_node@.len() as int) <= usize::MAX,
        stats.unresolved_bar_junctions@.len() <= usize::MAX,
        stats.rejected_node_ids@.len() <= usize::MAX,
        stats.rejected_crossing_details@.len() <= usize::MAX,
    ensures
        quality_of(stats).junctions == stats.unresolved_bar_junctions@.len(),
        quality_of(stats).missing == Seq::new(
            stats.unresolved_panel_ids_by_node@.len(),
            |k: int| stats.unresolved_panel_ids_by_node@[k].panel_ids@,
        ).flatten().len(),
        quality_of(stats).rejected == stats.rejected_node_ids@.len(),
        quality_of(stats).crossings == stats.rejected_crossing_details@.len(),
{
    missing_is_counted(stats.unresolved_panel_ids_by_node@, stats.unresolved_panel_ids_by_node@.len() as int);
}

proof fn missing_is_counted(list: Seq<NodePanels>, upto: int)
    requires
        0 <= upto <= list.len(),
    ensures
        missing_total(list, upto) == Seq::new(upto as nat, |k: int| list[k].panel_ids@).flatten().len(),
    decreases upto,
{
    let parts = Seq::new(upto as nat, |k: int| list[k].panel_ids@);
    parts.lemma_flatten_and_flatten_alt_are_equivalent();
    if upto > 0 {
        missing_is_counted(list, upto - 1);
        let fewer = Seq::new((upto - 1) as nat, |k: int| list[k].panel_ids@);
        fewer.lemma_flatten_and_flatten_alt_are_equivalent();
        assert(parts.drop_last() =~= fewer);
    }
}

/// A trial that moves too much is displaced whatever it gains; one that does not is judged by
/// whether it is better.
pub proof fn verdicts_follow_movement_then_quality(
    candidate: ContactQuality,
    baseline: ContactQuality,
    bar_movement: Scalar,
    panel_movement: Scalar,
    limit: Scalar,
)
    ensures
        verdict_of(candidate, baseline, bar_movement, panel_movement, limit) == TrialVerdict::Displaced <==> limit.lt(
            bar_movement,
        ) || limit.lt(panel_movement),
        verdict_of(candidate, baseline, bar_movement, panel_movement, limit) == TrialVerdict::Improved <==> !limit.lt(
            bar_movement,
        ) && !limit.lt(panel_movement) && better(candidate, baseline),
        candidate == baseline ==> verdict_of(candidate, baseline, bar_movement, panel_movement, limit)
            != TrialVerdict::Improved,
{
}

proof fn let_go_from(order: Seq<usize>, gaps: Seq<Scalar>, upto: int, x: usize)
    requires
        0 <= upto <= order.len(),
    ensures
        let_go(order, gaps, upto).contains(x) <==> order.take(upto).contains(x) && (Scalar { bits: 0x3e45_798e_e230_8c3a }).lt(
            gaps[x as int],
        ),
        let_go(order, gaps, upto).len() <= upto,
    decreases upto,
{
    if upto > 0 {
        let_go_from(order, gaps, upto - 1, x);
        assert(order.take(upto) =~= order.take(upto - 1).push(order[upto - 1]));
        pushed_contains(order.take(upto - 1), order[upto - 1], x);
        pushed_contains(let_go(order, gaps, upto - 1), order[upto - 1], x);
    }
}

/// A round lets go of incidences that are not satisfied only, and of none while a worse one is
/// kept.
pub proof fn worst_incidences_go_first(removed: Seq<usize>, gaps: Seq<Scalar>, x: usize, y: usize)
    requires
        relaxed(removed, gaps),
        0 < gaps.len() <= usize::MAX,
        removed.contains(x),
    ensures
        x < gaps.len(),
        (Scalar { bits: 0x3e45_798e_e230_8c3a }).lt(gaps[x as int]),
        y < gaps.len() && !removed.contains(y) && (Scalar { bits: 0x3e45_798e_e230_8c3a }).lt(gaps[y as int])
            ==> gaps[y as int].total_rank() <= gaps[x as int].total_rank(),
{
    let (keys, order) = choose|keys: Seq<i128>, order: Seq<usize>|
        gap_keys(keys, gaps) && #[trigger] stable_order(keys, order) && lists_distinct_indices(
            removed,
            let_go(order, gaps, round_size(gaps.len() as int)),
        );
    let n = round_size(gaps.len() as int);
    let_go_from(order, gaps, n, x);
    let_go_from(order, gaps, n, y);
    let i = choose|i: int| 0 <= i < order.take(n).len() && order.take(n)[i] == x;
    assert(order[i] == x);
    if y < gaps.len() && !removed.contains(y) && (Scalar { bits: 0x3e45_798e_e230_8c3a }).lt(gaps[y as int]) {
        assert(order.contains(y));
        let j = choose|j: int| 0 <= j < order.len() && order[j] == y;
        if j < n {
            assert(order.take(n)[j] == y);
        }
        assert(crate::ordering::key_before(keys, order[i], order[j]));
        assert(keys[x as int] == -gaps[x as int].total_rank());
        assert(keys[y as int] == -gaps[y as int].total_rank());
    }
}

/// A round may let go of a tenth of the incidences, and of one at least.
pub proof fn rounds_are_a_tenth(count: int)
    requires
        count > 0,
    ensures
        1 <= round_size(count) <= count,
        count >= 20 ==> 10 * round_size(count) <= count < 10 * round_size(count) + 10,
        count < 20 ==> round_size(count) == 1,
{
}

/// A solution without fault leaves every bar long enough and with its direction, every
/// constraint between the ends and within the movement limit, and no two too close.
pub proof fn sound_solutions_harm_no_bar(measure: SolutionMeasure, b: int)
    requires
        solution_fault(measure) is None,
        0 <= b < measure.bars@.len(),
    ensures
        !measure.bars@[b].length[0].lt(measure.bars@[b].length[1]),
        !measure.bars@[b].direction.le(Scalar::spec_zero()),
        forall|k: int|
            0 <= k < measure.bars@[b].parameters@.len() ==> !(#[trigger] measure.bars@[b].parameters@[k]).le(Scalar::spec_zero())
                && !Scalar::spec_one().le(measure.bars@[b].parameters@[k]),
        forall|k: int|
            0 <= k < measure.bars@[b].movements@.len() ==> !measure.movement_limit.lt(#[trigger] measure.bars@[b].movements@[k]),
        forall|k: int|
            0 <= k < measure.bars@[b].spacings@.len() ==> !(#[trigger] measure.bars@[b].spacings@[k])[0].lt(
                measure.bars@[b].spacings@[k][1],
            ),
{
    assert(!spoilt(measure.bars@[b]));
    no_constraint_fault(measure.bars@, measure.movement_limit, 0, b);
}

proof fn no_constraint_fault(bars: Seq<BarSolution>, limit: Scalar, from: int, b: int)
    requires
        first_constraint_fault(bars, limit, from) is None,
        0 <= from <= b < bars.len(),
    ensures
        constraint_fault(bars[b], limit) is None,
    decreases b - from,
{
    if from < b {
        no_constraint_fault(bars, limit, from + 1, b);
    }
}

/// The panel that leads is the first in the plane; a panel in no earlier plane leads itself.
pub proof fn leaders_are_first(same: Seq<Vec<bool>>, i: int, leader: int, other: int)
    requires
        leads(same, i, leader),
    ensures
        leader == i || same[i]@[leader],
        0 <= other < i && same[i]@[other] ==> leader <= other,
        leads(same, i, other) ==> other == leader,
{
    if leads(same, i, other) && other != leader {
        if other < leader {
            assert(!same[i]@[other]);
        } else {
            assert(!same[i]@[leader]);
        }
    }
}

/// An axis takes a fit exactly when both ends stay within the limit, it stays long enough and
/// keeps its direction.
pub proof fn axis_fits_keep_the_limit(fit: AxisFit)
    ensures
        fit_allowed(fit) <==> (forall|e: int| 0 <= e < 2 ==> (#[trigger] fit.movements[e]).le(fit.limit)) && !fit.length.lt(
            fit.required,
        ) && !fit.length.nan() && !fit.required.nan() && Scalar::spec_zero().lt(fit.direction),
        fit_moves(fit) <==> exists|e: int| 0 <= e < 2 && (Scalar { bits: 0x3e45_798e_e230_8c3a }).lt(#[trigger] fit.movements[e]),
{
    if fit_allowed(fit) {
        assert forall|e: int| 0 <= e < 2 implies (#[trigger] fit.movements[e]).le(fit.limit) by {
            assert(e == 0 || e == 1);
        }
    }
    if forall|e: int| 0 <= e < 2 ==> (#[trigger] fit.movements[e]).le(fit.limit) {
        assert(fit.movements[0].le(fit.limit) && fit.movements[1].le(fit.limit));
    }
    if fit_moves(fit) {
        if (Scalar { bits: PRECISION }).lt(fit.movements[0]) {
            assert((Scalar { bits: 0x3e45_798e_e230_8c3a }).lt(fit.movements[0]));
        } else {
            assert((Scalar { bits: 0x3e45_798e_e230_8c3a }).lt(fit.movements[1]));
        }
    }
}

/// The sizes that decide contacts: a hundred-millionth for a point, ten times that for an axis
/// and a tenth of it for a plane at rest.
pub proof fn contact_sizes_are_graded()
    ensures
        PRECISION == 0x3e45_798e_e230_8c3a,
        AXIS_RESIDUAL == 0x3e7a_d7f2_9abc_af48,
        PLANE_REST == 0x3e11_2e0b_e826_d695,
        (Scalar { bits: PLANE_REST }).lt(Scalar { bits: PRECISION }),
        (Scalar { bits: PRECISION }).lt(Scalar { bits: AXIS_RESIDUAL }),
{
}

/// An element stands behind a contact at a node exactly when a bar with it is anchored there.
pub proof fn contact_elements_are_of_anchored_bars(bars: Seq<MacroBar>, node: u32, upto: int, id: u32)
    requires
        0 <= upto <= bars.len(),
    ensures
        bar_sources(bars, node, upto).contains(id) <==> exists|b: int|
            0 <= b < upto && bar_anchors(b as usize, #[trigger] bars[b], node).len() > 0 && bars[b].source_element_ids@.contains(id),
    decreases upto,
{
    if upto > 0 {
        contact_elements_are_of_anchored_bars(bars, node, upto - 1, id);
        crate::shares::contains_either(bar_sources(bars, node, upto - 1), bars[upto - 1].source_element_ids@, id);
    }
}

/// Where panels meet a node is listed exactly: with the panel that lists an element last, where
/// the element has the node.
pub proof fn incident_panels_have_the_node(
    incident: Map<u32, Seq<usize>>,
    elements: Seq<ElementData>,
    sources: Seq<Vec<u32>>,
    names: Map<u32, u32>,
    e: int,
    i: int,
    p: usize,
)
    requires
        source_incident(incident, elements, sources, names),
        0 <= e < elements.len(),
        0 <= i < elements[e].nodes@.len(),
        p < sources.len(),
        sources[p as int]@.contains(elements[e].id),
        forall|q: int| p < q < sources.len() ==> !(#[trigger] sources[q])@.contains(elements[e].id),
    ensures
        incident.dom().contains(name_of(names, elements[e].nodes@[i])),
        incident[name_of(names, elements[e].nodes@[i])].contains(p),
{
    let node = name_of(names, elements[e].nodes@[i]);
    assert(last_panel(sources, elements[e].id, p as int));
    assert(panel_at_node(elements, sources, names, node, p));
    assert(node_incident(incident, elements, sources, names, node));
}

/// A panel that no element brings to a node is not listed there.
pub proof fn foreign_panels_are_not_incident(
    incident: Map<u32, Seq<usize>>,
    elements: Seq<ElementData>,
    sources: Seq<Vec<u32>>,
    names: Map<u32, u32>,
    node: u32,
    p: usize,
)
    requires
        source_incident(incident, elements, sources, names),
        incident.dom().contains(node),
        incident[node].contains(p),
    ensures
        exists|e: int|
            0 <= e < elements.len() && sources[p as int]@.contains((#[trigger] elements[e]).id) && exists|i: int|
                0 <= i < elements[e].nodes@.len() && name_of(names, #[trigger] elements[e].nodes@[i]) == node,
{
    assert(node_incident(incident, elements, sources, names, node));
    let (e, i) = choose|e: int, i: int|
        0 <= e < elements.len() && 0 <= i < elements[e].nodes@.len() && last_panel(sources, elements[e].id, p as int) && name_of(
            names,
            #[trigger] elements[e].nodes@[i],
        ) == node;
    assert(name_of(names, elements[e].nodes@[i]) == node);
    assert(sources[p as int]@.contains(elements[e].id));
}

/// What is said of a trial tells its outcome.
pub proof fn verdicts_are_told(verdict: TrialVerdict)
    ensures
        verdict == TrialVerdict::Displaced ==> verdict_text(verdict) == "cumulative_displacement"@,
        verdict == TrialVerdict::Improved ==> verdict_text(verdict) == "improved_contacts"@,
        verdict == TrialVerdict::NoImprovement ==> verdict_text(verdict) == "no_contact_improvement"@,
{
}

/// A crossing that was left out is reported with its panel, its elements and its place.
pub proof fn left_out_crossings_are_reported(record: RejectedSurfaceCrossing, panel_id: u32, elements: Seq<u32>, point: Point, t: Scalar)
    requires
        crossing_record(record, panel_id, elements, point, t),
    ensures
        record.panel_id == panel_id && record.source_element_ids@ == elements && record.point == point && record.t == t,
        record.reason@ == "would_create_short_constraint"@,
{
}

/// Rejecting nodes changes no tally of a summary.
pub proof fn rejections_change_no_tally(before: BarContactSummary, after: BarContactSummary)
    requires
        only_rejections(before, after),
    ensures
        after == (BarContactSummary {
            rejected_node_ids: after.rejected_node_ids,
            rejection_reasons: after.rejection_reasons,
            ..before
        }),
{
}

/// Inferring panels changes only what is listed as inferred or as ambiguous, and the incidence
/// of no other node.
pub proof fn inference_is_local(
    before: BarContactSummary,
    after: BarContactSummary,
    incident_before: Map<u32, Seq<usize>>,
    incident_after: Map<u32, Seq<usize>>,
    node: u32,
    fits: Seq<bool>,
    clashes: Seq<(usize, usize)>,
    panel_ids: Seq<u32>,
    other: u32,
)
    requires
        inferred(before, after, incident_before, incident_after, node, fits, clashes, panel_ids),
        other != node,
    ensures
        after == (BarContactSummary {
            inferred_panel_ids_by_node: after.inferred_panel_ids_by_node,
            ambiguous_panel_ids_by_node: after.ambiguous_panel_ids_by_node,
            ..before
        }),
        incident_after.dom().contains(other) <==> incident_before.dom().contains(other),
        incident_after[other] == incident_before[other],
        incident_before.dom().contains(node) ==> incident_after == incident_before && after == before,
        contested(fits, clashes) && !incident_before.dom().contains(node) ==> incident_after[node].len() == 0
            && after.inferred_panel_ids_by_node == before.inferred_panel_ids_by_node,
{
}

} // verus!
