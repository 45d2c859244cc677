//! Continuous straight axes from bar adjacency, without splitting at properties.
//!
//! Connected near-collinear paths are kept whole only where the whole path fits
//! one chord. A path that does not is partitioned into fitting subpaths, and
//! every cut that belongs to some smallest partition is kept. There is no
//! proximity welding and no interpretation of mechanical connectivity.
pub mod paths;

use vstd::prelude::*;
use crate::connectivity::{components_of, connected, connected_closed, connected_groups, connected_reflexive, connected_step, connected_transitive, in_some_group, pair_relation, touch};
use crate::incidence::{incident_list, Incidence};
use crate::input::{ElementData, MeshData, Point};
use crate::ordering::{ascending, ascending_indices, sorted_indices, stable_order};
use crate::registry::Registry;
use crate::scalar::Scalar;

verus! {

/// A quarter of the half turn, in radians.
pub const QUARTER_PI_BITS: u64 = 0x3fe9_21fb_5444_2d18;

#[derive(Debug, Clone, Copy)]
pub struct Policy {
    pub angle: Scalar,
    pub line_tolerance: Scalar,
    pub numerical_precision: Scalar,
}

impl Policy {
    pub open spec fn valid(&self) -> bool {
        &&& crate::scalar::positive(self.angle)
        &&& self.angle.lt(Scalar { bits: QUARTER_PI_BITS })
        &&& self.line_tolerance.finite()
        &&& crate::scalar::positive(self.numerical_precision)
        &&& self.numerical_precision.le(self.line_tolerance)
    }

    pub fn is_valid(&self) -> (r: bool)
        ensures
            r == self.valid(),
    {
        crate::scalar::is_positive(&self.angle) && self.angle.less(&Scalar { bits: QUARTER_PI_BITS })
            && self.line_tolerance.is_finite() && crate::scalar::is_positive(
            &self.numerical_precision,
        ) && self.numerical_precision.at_most(&self.line_tolerance)
    }
}

/// The stretch of an axis that one source bar covers.
#[derive(Debug, Clone, Copy, PartialEq, Eq, Structural)]
pub struct SourceSpan {
    pub element: u32,
    pub stiffness: u32,
    pub start_t: Scalar,
    pub end_t: Scalar,
}

/// A source node on an axis.
#[derive(Debug)]
pub struct SourceAnchor {
    pub node: u32,
    pub t: Scalar,
    pub distance_to_axis: Scalar,
    pub incident_elements: Vec<u32>,
}

#[derive(Debug)]
pub struct RecognizedAxis {
    pub endpoints: [Point; 2],
    pub endpoint_nodes: [u32; 2],
    pub spans: Vec<SourceSpan>,
    /// Interior source nodes remain parametric, including branches and property boundaries.
    pub anchors: Vec<SourceAnchor>,
}

#[derive(Debug)]
pub struct RejectedElement {
    pub element: u32,
    pub reason: String,
}

#[derive(Debug)]
pub struct Report {
    pub policy: Policy,
    pub axes: Vec<RecognizedAxis>,
    pub rejected: Vec<RejectedElement>,
    pub unmerged_components: Vec<Vec<u32>>,
    pub non_bar_elements: Vec<u32>,
}

/// A bar that can take part in axes.
#[derive(Debug, Clone, Copy)]
pub struct Bar {
    pub element: usize,
    pub id: u32,
    pub stiffness: u32,
    pub ends: [u32; 2],
}

/// The source elements, sorted out by number.
#[derive(Debug)]
pub struct Survey {
    pub bars: Vec<Bar>,
    pub rejected: Vec<RejectedElement>,
    pub non_bar_elements: Vec<u32>,
}

pub open spec fn finite_point(point: Point) -> bool {
    point[0].finite() && point[1].finite() && point[2].finite()
}

pub fn is_finite_point(point: &Point) -> (r: bool)
    ensures
        r == finite_point(*point),
{
    point[0].is_finite() && point[1].is_finite() && point[2].is_finite()
}

/// The node is known and has finite coordinates.
pub open spec fn placed(mesh: MeshData, node: u32) -> bool {
    mesh.nodes@.dom().contains(node) && finite_point(mesh.nodes@[node])
}

pub open spec fn misplaced(mesh: MeshData, element: ElementData) -> bool {
    element.bar() && !(placed(mesh, element.nodes@[0]) && placed(mesh, element.nodes@[1]))
}

pub open spec fn degenerate(
    mesh: MeshData,
    policy: Policy,
    element: ElementData,
    length: Scalar,
) -> bool {
    &&& element.bar()
    &&& !misplaced(mesh, element)
    &&& (element.nodes@[0] == element.nodes@[1] || !length.finite() || length.le(
        policy.numerical_precision,
    ))
}

pub open spec fn usable(
    mesh: MeshData,
    policy: Policy,
    element: ElementData,
    length: Scalar,
) -> bool {
    element.bar() && !misplaced(mesh, element) && !degenerate(mesh, policy, element, length)
}

pub open spec fn bar_of(bar: Bar, elements: Seq<ElementData>) -> bool {
    &&& bar.element < elements.len()
    &&& bar.id == elements[bar.element as int].id
    &&& bar.stiffness == elements[bar.element as int].stiff_id
    &&& bar.ends@ == elements[bar.element as int].nodes@
}

pub open spec fn refusal(
    entry: RejectedElement,
    mesh: MeshData,
    policy: Policy,
    lengths: Seq<Scalar>,
    e: int,
) -> bool {
    &&& entry.element == mesh.elements@[e].id
    &&& if misplaced(mesh, mesh.elements@[e]) {
        entry.reason@ == "missing_or_nonfinite_node"@
    } else {
        degenerate(mesh, policy, mesh.elements@[e], lengths[e]) && entry.reason@
            == "degenerate_element"@
    }
}

/// The entry names a refused element and says why it is refused.
pub open spec fn refusal_of_some(
    entry: RejectedElement,
    mesh: MeshData,
    policy: Policy,
    lengths: Seq<Scalar>,
) -> bool {
    exists|e: int|
        0 <= e < mesh.elements@.len() && #[trigger] refusal(entry, mesh, policy, lengths, e)
}

pub open spec fn refused(mesh: MeshData, policy: Policy, lengths: Seq<Scalar>, e: int) -> bool {
    misplaced(mesh, mesh.elements@[e]) || degenerate(mesh, policy, mesh.elements@[e], lengths[e])
}

pub open spec fn refusal_exists(
    entries: Seq<RejectedElement>,
    mesh: MeshData,
    policy: Policy,
    lengths: Seq<Scalar>,
    e: int,
) -> bool {
    exists|k: int| 0 <= k < entries.len() && refusal(#[trigger] entries[k], mesh, policy, lengths, e)
}

impl Survey {
    /// Each element stands in exactly the list it belongs to; every list is
    /// ascending by element number.
    pub open spec fn sorts(&self, mesh: MeshData, policy: Policy, lengths: Seq<Scalar>) -> bool {
        &&& forall|b: int|
            0 <= b < self.bars@.len() ==> bar_of(#[trigger] self.bars@[b], mesh.elements@) && usable(
                mesh,
                policy,
                mesh.elements@[self.bars@[b].element as int],
                lengths[self.bars@[b].element as int],
            )
        &&& forall|b: int, c: int|
            0 <= b < c < self.bars@.len() ==> (#[trigger] self.bars@[b]).id < (
            #[trigger] self.bars@[c]).id
        &&& forall|e: int|
            0 <= e < mesh.elements@.len() && usable(
                mesh,
                policy,
                #[trigger] mesh.elements@[e],
                lengths[e],
            ) ==> exists|b: int| 0 <= b < self.bars@.len() && (#[trigger] self.bars@[b]).element == e
        &&& forall|k: int|
            0 <= k < self.rejected@.len() ==> refusal_of_some(
                #[trigger] self.rejected@[k],
                mesh,
                policy,
                lengths,
            )
        &&& forall|k: int, l: int|
            0 <= k < l < self.rejected@.len() ==> (#[trigger] self.rejected@[k]).element < (
            #[trigger] self.rejected@[l]).element
        &&& forall|e: int|
            0 <= e < mesh.elements@.len() && #[trigger] refused(mesh, policy, lengths, e)
                ==> refusal_exists(self.rejected@, mesh, policy, lengths, e)
        &&& ascending(self.non_bar_elements@)
        &&& forall|id: u32| #[trigger]
            self.non_bar_elements@.contains(id) <==> exists|e: int|
                0 <= e < mesh.elements@.len() && (#[trigger] mesh.elements@[e]).id == id
                    && !mesh.elements@[e].bar()
    }
}

pub open spec fn distinct_ids(elements: Seq<ElementData>) -> bool {
    forall|d: int, e: int|
        0 <= d < e < elements.len() ==> (#[trigger] elements[d]).id != (#[trigger] elements[e]).id
}

/// The numbers of all elements.
pub open spec fn element_ids(elements: Seq<ElementData>) -> Seq<u32> {
    elements.map_values(|element: ElementData| element.id)
}

pub(crate) fn id_order(elements: &Vec<ElementData>) -> (r: (Vec<i128>, Vec<usize>))
    ensures
        r.0@.len() == elements@.len(),
        forall|e: int| 0 <= e < elements@.len() ==> #[trigger] r.0@[e] == elements@[e].id,
        stable_order(r.0@, r.1@),
{
    let mut keys: Vec<i128> = Vec::new();
    let mut e: usize = 0;
    while e < elements.len()
        invariant
            e <= elements.len(),
            keys.len() == e,
            forall|d: int| 0 <= d < e ==> #[trigger] keys@[d] == elements@[d].id,
        decreases elements.len() - e,
    {
        keys.push(elements[e].id as i128);
        e += 1;
    }
    let order = sorted_indices(&keys);
    (keys, order)
}

/// Whether all element numbers differ.
pub fn ids_distinct(elements: &Vec<ElementData>) -> (r: bool)
    ensures
        r == distinct_ids(elements@),
{
    let (keys, order) = id_order(elements);
    let mut k: usize = 1;
    while k < order.len()
        invariant
            1 <= k,
            k <= order.len() || order.len() == 0,
            stable_order(keys@, order@),
            keys@.len() == elements@.len(),
            forall|e: int| 0 <= e < elements@.len() ==> #[trigger] keys@[e] == elements@[e].id,
            forall|i: int, j: int|
                0 <= i < j < k && j < order.len() ==> keys@[order@[i] as int] < keys@[order@[j] as int],
        decreases order.len() - k,
    {
        let before: usize = order[k - 1];
        let here: usize = order[k];
        assert(crate::ordering::key_before(keys@, order@[k - 1], order@[k as int]));
        if elements[before].id == elements[here].id {
            proof {
                if before < here {
                    assert(elements@[before as int].id == elements@[here as int].id);
                } else {
                    assert(elements@[here as int].id == elements@[before as int].id);
                }
            }
            return false;
        }
        assert(keys@[before as int] == elements@[before as int].id);
        assert(keys@[here as int] == elements@[here as int].id);
        k += 1;
    }
    proof {
        assert forall|d: int, e: int| 0 <= d < e < elements@.len() implies (#[trigger] elements@[d]).id
            != (#[trigger] elements@[e]).id by {
            assert(order@.contains(d as usize) && order@.contains(e as usize));
            let i = choose|i: int| 0 <= i < order@.len() && order@[i] == d as usize;
            let j = choose|j: int| 0 <= j < order@.len() && order@[j] == e as usize;
            assert(i != j);
            assert(keys@[d] == elements@[d].id && keys@[e] == elements@[e].id);
            if i < j {
                assert(keys@[order@[i] as int] < keys@[order@[j] as int]);
            } else {
                assert(keys@[order@[j] as int] < keys@[order@[i] as int]);
            }
        }
    }
    true
}

/// Sorts the source elements out. `lengths` holds the distance between the two
/// ends of each element that is a bar with placed nodes.
#[verifier::loop_isolation(false)]
#[verifier::rlimit(40)]
pub fn survey(mesh: &MeshData, policy: &Policy, lengths: &Vec<Scalar>) -> (r: Result<
    Survey,
    &'static str,
>)
    requires
        lengths@.len() == mesh.elements@.len(),
    ensures
        match r {
            Ok(survey) => policy.valid() && distinct_ids(mesh.elements@) && survey.sorts(
                *mesh,
                *policy,
                lengths@,
            ),
            Err(reason) => if policy.valid() {
                reason@ == "duplicate source element ID"@ && !distinct_ids(mesh.elements@)
            } else {
                reason@ == "invalid recognition policy"@
            },
        },
{
    if !policy.is_valid() {
        return Err("invalid recognition policy");
    }
    if !ids_distinct(&mesh.elements) {
        return Err("duplicate source element ID");
    }
    let (keys, order) = id_order(&mesh.elements);
    let mut result = Survey {
        bars: Vec::new(),
        rejected: Vec::new(),
        non_bar_elements: Vec::new(),
    };
    let ghost elements = mesh.elements@;
    let mut k: usize = 0;
    while k < order.len()
        invariant
            k <= order.len(),
            forall|b: int|
                0 <= b < result.bars@.len() ==> bar_of(#[trigger] result.bars@[b], elements)
                    && usable(
                    *mesh,
                    *policy,
                    elements[result.bars@[b].element as int],
                    lengths@[result.bars@[b].element as int],
                ),
            forall|b: int|
                0 <= b < result.bars@.len() ==> id_done(elements, order@, k as int, (#[trigger] result.bars@[b]).id),
            forall|b: int, c: int|
                0 <= b < c < result.bars@.len() ==> (#[trigger] result.bars@[b]).id < (
                #[trigger] result.bars@[c]).id,
            forall|i: int|
                0 <= i < k && usable(
                    *mesh,
                    *policy,
                    elements[#[trigger] order@[i] as int],
                    lengths@[order@[i] as int],
                ) ==> exists|b: int|
                    0 <= b < result.bars@.len() && (#[trigger] result.bars@[b]).element == order@[i],
            forall|b: int|
                0 <= b < result.rejected@.len() ==> refusal_of_some(
                    #[trigger] result.rejected@[b],
                    *mesh,
                    *policy,
                    lengths@,
                ),
            forall|b: int|
                0 <= b < result.rejected@.len() ==> id_done(
                    elements,
                    order@,
                    k as int,
                    (#[trigger] result.rejected@[b]).element,
                ),
            forall|b: int, c: int|
                0 <= b < c < result.rejected@.len() ==> (#[trigger] result.rejected@[b]).element < (
                #[trigger] result.rejected@[c]).element,
            forall|i: int|
                0 <= i < k && refused(*mesh, *policy, lengths@, #[trigger] order@[i] as int)
                    ==> refusal_exists(
                    result.rejected@,
                    *mesh,
                    *policy,
                    lengths@,
                    order@[i] as int,
                ),
            ascending(result.non_bar_elements@),
            forall|b: int|
                0 <= b < result.non_bar_elements@.len() ==> id_done(
                    elements,
                    order@,
                    k as int,
                    #[trigger] result.non_bar_elements@[b],
                ) && exists|e: int|
                    0 <= e < elements.len() && (#[trigger] elements[e]).id
                        == result.non_bar_elements@[b] && !elements[e].bar(),
            forall|i: int|
                0 <= i < k && !elements[#[trigger] order@[i] as int].bar()
                    ==> result.non_bar_elements@.contains(elements[order@[i] as int].id),
        decreases order.len() - k,
    {
        let e: usize = order[k];
        let element = &mesh.elements[e];
        let ghost before = result;
        proof {
            assert forall|id: u32| #[trigger] id_done(elements, order@, k as int, id) implies id
                < element.id && id_done(elements, order@, k + 1, id) by {
                let i = choose|i: int| 0 <= i < k && elements[#[trigger] order@[i] as int].id == id;
                assert(crate::ordering::key_before(keys@, order@[i], order@[k as int]));
                assert(keys@[order@[i] as int] == elements[order@[i] as int].id);
                assert(keys@[e as int] == elements[e as int].id);
                assert(order@[i] != order@[k as int]);
                if order@[i] < e {
                    assert(elements[order@[i] as int].id != elements[e as int].id);
                } else {
                    assert(elements[e as int].id != elements[order@[i] as int].id);
                }
            }
            assert(elements[order@[k as int] as int].id == element.id);
            assert(id_done(elements, order@, k + 1, element.id));
        }
        if !element.is_bar() {
            result.non_bar_elements.push(element.id);
            proof {
                let list = result.non_bar_elements@;
                assert(list[list.len() - 1] == element.id);
                assert forall|x: u32| before.non_bar_elements@.contains(x) implies list.contains(x) by {
                    let m = choose|m: int| 0 <= m < before.non_bar_elements@.len() && before.non_bar_elements@[m] == x;
                    assert(list[m] == x);
                }
            }
        } else {
            let first = mesh.nodes.get(element.nodes[0]);
            let second = mesh.nodes.get(element.nodes[1]);
            let known: bool = match (first, second) {
                (Some(a), Some(b)) => is_finite_point(&a) && is_finite_point(&b),
                _ => false,
            };
            assert(known == !misplaced(*mesh, *element));
            if !known {
                result.rejected.push(
                    RejectedElement {
                        element: element.id,
                        reason: "missing_or_nonfinite_node".to_string(),
                    },
                );
                assert(refusal(result.rejected@[result.rejected@.len() - 1], *mesh, *policy, lengths@, e as int));
            } else if element.nodes[0] == element.nodes[1] || !lengths[e].is_finite()
                || lengths[e].at_most(&policy.numerical_precision) {
                result.rejected.push(
                    RejectedElement {
                        element: element.id,
                        reason: "degenerate_element".to_string(),
                    },
                );
                assert(refusal(result.rejected@[result.rejected@.len() - 1], *mesh, *policy, lengths@, e as int));
            } else {
                let bar = Bar {
                    element: e,
                    id: element.id,
                    stiffness: element.stiff_id,
                    ends: [element.nodes[0], element.nodes[1]],
                };
                assert(bar.ends@ =~= element.nodes@);
                result.bars.push(bar);
                assert(result.bars@[result.bars@.len() - 1] == bar);
            }
        }
        proof {
            assert forall|i: int| 0 <= i < k + 1 && usable(
                *mesh,
                *policy,
                elements[#[trigger] order@[i] as int],
                lengths@[order@[i] as int],
            ) implies exists|b: int|
                0 <= b < result.bars@.len() && (#[trigger] result.bars@[b]).element == order@[i] by {
                if i < k {
                    let b = choose|b: int| 0 <= b < before.bars@.len() && (#[trigger] before.bars@[b]).element == order@[i];
                    assert(result.bars@[b].element == order@[i]);
                }
            }
            assert forall|i: int| 0 <= i < k + 1 && refused(*mesh, *policy, lengths@, #[trigger] order@[i] as int) implies refusal_exists(
                result.rejected@, *mesh, *policy, lengths@, order@[i] as int) by {
                if i < k {
                    let b = choose|b: int| 0 <= b < before.rejected@.len() && refusal(#[trigger] before.rejected@[b], *mesh, *policy, lengths@, order@[i] as int);
                    assert(result.rejected@[b] == before.rejected@[b]);
                } else {
                    let last = result.rejected@.len() - 1;
                    assert(refusal(result.rejected@[last], *mesh, *policy, lengths@, e as int));
                }
            }
            assert forall|b: int| 0 <= b < result.rejected@.len() implies refusal_of_some(#[trigger] result.rejected@[b], *mesh, *policy, lengths@) by {
                if b < before.rejected@.len() {
                    assert(result.rejected@[b] == before.rejected@[b]);
                } else {
                    assert(refusal(result.rejected@[b], *mesh, *policy, lengths@, e as int));
                }
            }
            assert forall|b: int| 0 <= b < result.non_bar_elements@.len() implies id_done(elements, order@, k + 1, #[trigger] result.non_bar_elements@[b]) && exists|f: int|
                0 <= f < elements.len() && (#[trigger] elements[f]).id == result.non_bar_elements@[b] && !elements[f].bar() by {
                if b < before.non_bar_elements@.len() {
                    assert(before.non_bar_elements@[b] == result.non_bar_elements@[b]);
                } else {
                    assert(elements[e as int].id == result.non_bar_elements@[b]);
                }
            }
        }
        k += 1;
    }
    proof {
        assert forall|e: int| 0 <= e < elements.len() implies #[trigger] done_index(order@, e) by {
            assert(order@.contains(e as usize));
            let i = choose|i: int| 0 <= i < order@.len() && order@[i] == e as usize;
            assert(order@[i] == e);
        }
        assert forall|e: int| 0 <= e < elements.len() && usable(*mesh, *policy, #[trigger] elements[e], lengths@[e]) implies exists|b: int|
            0 <= b < result.bars@.len() && (#[trigger] result.bars@[b]).element == e by {
            assert(done_index(order@, e));
            let i = choose|i: int| 0 <= i < order@.len() && #[trigger] order@[i] == e;
            assert(usable(*mesh, *policy, elements[order@[i] as int], lengths@[order@[i] as int]));
        }
        assert forall|e: int| 0 <= e < elements.len() && #[trigger] refused(*mesh, *policy, lengths@, e) implies refusal_exists(result.rejected@, *mesh, *policy, lengths@, e) by {
            assert(done_index(order@, e));
            let i = choose|i: int| 0 <= i < order@.len() && #[trigger] order@[i] == e;
            assert(refusal_exists(result.rejected@, *mesh, *policy, lengths@, order@[i] as int));
        }
        assert forall|id: u32| #[trigger] result.non_bar_elements@.contains(id) <==> exists|e: int|
            0 <= e < elements.len() && (#[trigger] elements[e]).id == id && !elements[e].bar() by {
            if result.non_bar_elements@.contains(id) {
                let b = choose|b: int| 0 <= b < result.non_bar_elements@.len() && result.non_bar_elements@[b] == id;
                assert(id_done(elements, order@, k as int, result.non_bar_elements@[b]));
            }
            if exists|e: int| 0 <= e < elements.len() && (#[trigger] elements[e]).id == id && !elements[e].bar() {
                let e = choose|e: int| 0 <= e < elements.len() && (#[trigger] elements[e]).id == id && !elements[e].bar();
                assert(done_index(order@, e));
                let i = choose|i: int| 0 <= i < order@.len() && #[trigger] order@[i] == e;
                assert(!elements[order@[i] as int].bar());
            }
        }
    }
    Ok(result)
}

spec fn id_done(elements: Seq<ElementData>, order: Seq<usize>, upto: int, id: u32) -> bool {
    exists|i: int| 0 <= i < upto && elements[#[trigger] order[i] as int].id == id
}

spec fn done_index(order: Seq<usize>, e: int) -> bool {
    exists|i: int| 0 <= i < order.len() && #[trigger] order[i] == e
}

/// The node at an end of a bar: half `2 * b + s` is end `s` of bar `b`.
pub open spec fn half_node(bars: Seq<Bar>, h: int) -> u32 {
    bars[h / 2].ends[h % 2]
}

/// The other end of the same bar.
pub open spec fn opposite(h: int) -> int {
    if h % 2 == 0 {
        h + 1
    } else {
        h - 1
    }
}

/// Two different bars meet with these ends.
pub open spec fn meet(bars: Seq<Bar>, h: int, g: int) -> bool {
    &&& 0 <= h < 2 * bars.len()
    &&& 0 <= g < 2 * bars.len()
    &&& h / 2 != g / 2
    &&& half_node(bars, h) == half_node(bars, g)
}

/// Bar end `g` could continue bar end `h` in a straight line.
pub open spec fn candidate(bars: Seq<Bar>, opposed: Seq<(usize, usize)>, h: int, g: int) -> bool {
    meet(bars, h, g) && opposed.contains((h as usize, g as usize))
}

/// `g` is the one and only continuation of `h`.
pub open spec fn continues(bars: Seq<Bar>, opposed: Seq<(usize, usize)>, h: int, g: int) -> bool {
    &&& candidate(bars, opposed, h, g)
    &&& forall|f: int| #[trigger] candidate(bars, opposed, h, f) ==> f == g
}

/// Both ends continue each other.
pub open spec fn mutual(bars: Seq<Bar>, opposed: Seq<(usize, usize)>, h: int, g: int) -> bool {
    continues(bars, opposed, h, g) && continues(bars, opposed, g, h)
}

pub open spec fn links_of(
    links: Seq<Option<usize>>,
    bars: Seq<Bar>,
    opposed: Seq<(usize, usize)>,
) -> bool {
    &&& links.len() == 2 * bars.len()
    &&& forall|h: int, g: int|
        0 <= h < links.len() && 0 <= g < links.len() ==> ((#[trigger] links[h] == Some(g as usize))
            <==> #[trigger] mutual(bars, opposed, h, g))
    &&& forall|h: int| 0 <= h < links.len() && #[trigger] links[h] is Some ==> links[h]->0 < links.len()
}

fn half_node_at(bars: &Vec<Bar>, h: usize) -> (r: u32)
    requires
        h < 2 * bars.len(),
    ensures
        r == half_node(bars@, h as int),
{
    if h % 2 == 0 {
        bars[h / 2].ends[0]
    } else {
        bars[h / 2].ends[1]
    }
}

fn opposite_of(h: usize) -> (r: usize)
    requires
        h < usize::MAX,
    ensures
        r == opposite(h as int),
{
    if h % 2 == 0 {
        h + 1
    } else {
        h - 1
    }
}

spec fn halves_listed(bars: Seq<Bar>, upto: int, slots: Map<u64, usize>, lists: Seq<Vec<usize>>) -> bool {
    &&& forall|x: u64| #[trigger] slots.dom().contains(x) ==> slots[x] < lists.len() && x <= u32::MAX
    &&& forall|x: u64, y: u64| #[trigger]
        slots.dom().contains(x) && #[trigger] slots.dom().contains(y) && x != y ==> slots[x] != slots[y]
    &&& forall|h: int|
        0 <= h < upto ==> slots.dom().contains(#[trigger] half_node(bars, h) as u64)
            && lists[slots[half_node(bars, h) as u64] as int]@.contains(h as usize)
    &&& forall|x: u32, m: int|
        slots.dom().contains(x as u64) && 0 <= m < lists[slots[x as u64] as int]@.len() ==> {
            let h = #[trigger] lists[slots[x as u64] as int]@[m];
            h < upto && half_node(bars, h as int) == x
        }
}

/// All pairs of bar ends that meet at a node, for which alignment matters.
pub fn meeting_halves(bars: &Vec<Bar>) -> (r: Vec<(usize, usize)>)
    requires
        2 * bars.len() < usize::MAX,
    ensures
        forall|h: usize, g: usize| #[trigger] r@.contains((h, g)) <==> meet(bars@, h as int, g as int),
{
    let total: usize = 2 * bars.len();
    let mut slots = Registry::new();
    let mut lists: Vec<Vec<usize>> = Vec::new();
    let mut h: usize = 0;
    while h < total
        invariant
            h <= total,
            total == 2 * bars.len(),
            halves_listed(bars@, h as int, slots@, lists@),
        decreases total - h,
    {
        let node: u32 = half_node_at(bars, h);
        let ghost slots0 = slots@;
        let ghost lists0 = lists@;
        let slot: usize = match slots.get(node as u64) {
            Some(found) => found,
            None => {
                let fresh: usize = lists.len();
                slots.insert(node as u64, fresh);
                lists.push(Vec::new());
                fresh
            },
        };
        let ghost lists1 = lists@;
        lists[slot].push(h);
        proof {
            assert(lists@[slot as int]@ == lists1[slot as int]@.push(h));
            assert forall|k: int| 0 <= k < h + 1 implies slots@.dom().contains(
                #[trigger] half_node(bars@, k) as u64,
            ) && lists@[slots@[half_node(bars@, k) as u64] as int]@.contains(k as usize) by {
                let x = half_node(bars@, k) as u64;
                if k < h {
                    assert(slots0.dom().contains(x));
                    let s = slots0[x] as int;
                    assert(lists0[s]@.contains(k as usize));
                    let m = choose|m: int| 0 <= m < lists0[s]@.len() && lists0[s]@[m] == k as usize;
                    assert(lists@[s]@[m] == k as usize);
                } else {
                    assert(lists@[slot as int]@.last() == h);
                }
            }
            assert forall|x: u32, m: int|
                slots@.dom().contains(x as u64) && 0 <= m < lists@[slots@[x as u64] as int]@.len() implies {
                let k = #[trigger] lists@[slots@[x as u64] as int]@[m];
                k < h + 1 && half_node(bars@, k as int) == x
            } by {
                let s = slots@[x as u64] as int;
                if s != slot || m < lists1[s]@.len() {
                    if slots0.dom().contains(x as u64) {
                        assert(lists@[s]@[m] == lists0[slots0[x as u64] as int]@[m]);
                    } else {
                        assert(x == node);
                    }
                } else {
                    assert(x as u64 == node as u64);
                }
            }
        }
        h += 1;
    }
    let mut r: Vec<(usize, usize)> = Vec::new();
    let mut first: usize = 0;
    while first < total
        invariant
            first <= total,
            total == 2 * bars.len(),
            halves_listed(bars@, total as int, slots@, lists@),
            forall|k: int|
                0 <= k < r.len() ==> meet(bars@, (#[trigger] r@[k]).0 as int, r@[k].1 as int),
            forall|a: usize, b: usize|
                a < first && #[trigger] meet(bars@, a as int, b as int) ==> r@.contains((a, b)),
        decreases total - first,
    {
        let node: u32 = half_node_at(bars, first);
        assert(slots@.dom().contains(half_node(bars@, first as int) as u64));
        let slot: usize = match slots.get(node as u64) {
            Some(found) => found,
            None => 0,
        };
        let mut m: usize = 0;
        while m < lists[slot].len()
            invariant
                first < total,
                total == 2 * bars.len(),
                halves_listed(bars@, total as int, slots@, lists@),
                node == half_node(bars@, first as int),
                slots@.dom().contains(node as u64),
                slot == slots@[node as u64],
                slot < lists.len(),
                m <= lists@[slot as int]@.len(),
                forall|k: int|
                    0 <= k < r.len() ==> meet(bars@, (#[trigger] r@[k]).0 as int, r@[k].1 as int),
                forall|a: usize, b: usize|
                    a < first && #[trigger] meet(bars@, a as int, b as int) ==> r@.contains((a, b)),
                forall|k: int|
                    0 <= k < m && lists@[slot as int]@[k] / 2 != first / 2 ==> r@.contains(
                        (first, #[trigger] lists@[slot as int]@[k]),
                    ),
            decreases lists@[slot as int]@.len() - m,
        {
            let second: usize = lists[slot][m];
            assert(second < total && half_node(bars@, second as int) == node);
            let ghost before = r@;
            if second / 2 != first / 2 {
                r.push((first, second));
                assert(r@[r.len() - 1] == (first, second));
                assert forall|x: (usize, usize)| before.contains(x) implies r@.contains(x) by {
                    let k = choose|k: int| 0 <= k < before.len() && before[k] == x;
                    assert(r@[k] == x);
                }
            }
            m += 1;
        }
        proof {
            assert forall|a: usize, b: usize| a < first + 1 && #[trigger] meet(bars@, a as int, b as int) implies r@.contains((a, b)) by {
                if a == first {
                    assert(half_node(bars@, b as int) == node);
                    assert(lists@[slot as int]@.contains(b));
                    let k = choose|k: int| 0 <= k < lists@[slot as int]@.len() && lists@[slot as int]@[k] == b;
                    assert(lists@[slot as int]@[k] / 2 != first / 2);
                }
            }
        }
        first += 1;
    }
    r
}

spec fn candidate_before(bars: Seq<Bar>, opposed: Seq<(usize, usize)>, upto: int, h: int, g: int) -> bool {
    meet(bars, h, g) && exists|i: int| 0 <= i < upto && #[trigger] opposed[i] == (h as usize, g as usize)
}

spec fn sole_known(
    bars: Seq<Bar>,
    opposed: Seq<(usize, usize)>,
    upto: int,
    h: int,
    sole: Option<usize>,
    many: bool,
) -> bool {
    &&& match sole {
        Some(g) => candidate_before(bars, opposed, upto, h, g as int),
        None => !many && forall|f: int| !#[trigger] candidate_before(bars, opposed, upto, h, f),
    }
    &&& if many {
        exists|f: int| f != sole->0 && #[trigger] candidate_before(bars, opposed, upto, h, f)
    } else {
        forall|f: int| #[trigger]
            candidate_before(bars, opposed, upto, h, f) ==> sole is Some && f == sole->0
    }
}

spec fn is_sole(
    bars: Seq<Bar>,
    opposed: Seq<(usize, usize)>,
    h: int,
    found: Option<usize>,
) -> bool {
    match found {
        Some(g) => continues(bars, opposed, h, g as int),
        None => forall|g: int| !continues(bars, opposed, h, g),
    }
}

fn sole_candidates(bars: &Vec<Bar>, opposed: &Vec<(usize, usize)>) -> (r: Vec<Option<usize>>)
    requires
        2 * bars.len() < usize::MAX,
    ensures
        r.len() == 2 * bars.len(),
        forall|h: int|
            0 <= h < r.len() ==> is_sole(bars@, opposed@, h, #[trigger] r@[h]),
{
    let total: usize = 2 * bars.len();
    let mut sole: Vec<Option<usize>> = Vec::new();
    let mut many: Vec<bool> = Vec::new();
    let mut h: usize = 0;
    while h < total
        invariant
            h <= total,
            sole.len() == h,
            many.len() == h,
            forall|k: int| 0 <= k < h ==> (#[trigger] sole@[k]) is None,
            forall|k: int| 0 <= k < h ==> !#[trigger] many@[k],
        decreases total - h,
    {
        sole.push(None);
        many.push(false);
        h += 1;
    }
    let mut i: usize = 0;
    while i < opposed.len()
        invariant
            i <= opposed.len(),
            total == 2 * bars.len(),
            sole.len() == total,
            many.len() == total,
            forall|k: int|
                0 <= k < total ==> sole_known(
                    bars@,
                    opposed@,
                    i as int,
                    k,
                    #[trigger] sole@[k],
                    many@[k],
                ),
        decreases opposed.len() - i,
    {
        let (a, b) = opposed[i];
        let ghost sole0 = sole@;
        let ghost many0 = many@;
        let mut counts: bool = false;
        if a < total && b < total {
            counts = a / 2 != b / 2 && half_node_at(bars, a) == half_node_at(bars, b);
        }
        assert(counts == meet(bars@, a as int, b as int));
        if counts {
            match sole[a] {
                None => {
                    sole.set(a, Some(b));
                },
                Some(known) => {
                    if known != b {
                        many.set(a, true);
                    }
                },
            }
        }
        proof {
            assert forall|k: int, f: int| #[trigger] candidate_before(bars@, opposed@, i + 1, k, f) <==> (
                candidate_before(bars@, opposed@, i as int, k, f) || (counts && k == a && f == b)) by {
                if candidate_before(bars@, opposed@, i + 1, k, f) {
                    let j = choose|j: int| 0 <= j < i + 1 && #[trigger] opposed@[j] == (k as usize, f as usize);
                    if j == i {
                        assert(k as usize == a && f as usize == b);
                        assert(k == a && f == b);
                    } else {
                        assert(opposed@[j] == (k as usize, f as usize));
                    }
                }
                if counts && k == a && f == b {
                    assert(opposed@[i as int] == (k as usize, f as usize));
                }
            }
            assert forall|k: int| 0 <= k < total implies sole_known(bars@, opposed@, i + 1, k, #[trigger] sole@[k], many@[k]) by {
                assert(sole_known(bars@, opposed@, i as int, k, sole0[k], many0[k]));
                if counts && k == a {
                    assert(candidate_before(bars@, opposed@, i + 1, k, b as int));
                    if many0[k] {
                        let f = choose|f: int| f != sole0[k]->0 && #[trigger] candidate_before(bars@, opposed@, i as int, k, f);
                        assert(candidate_before(bars@, opposed@, i + 1, k, f));
                    }
                } else if many0[k] {
                    let f = choose|f: int| f != sole0[k]->0 && #[trigger] candidate_before(bars@, opposed@, i as int, k, f);
                    assert(candidate_before(bars@, opposed@, i + 1, k, f));
                }
                match sole@[k] {
                    Some(g) => {
                        assert(candidate_before(bars@, opposed@, i + 1, k, g as int));
                    },
                    None => {},
                }
            }
        }
        i += 1;
    }
    let mut r: Vec<Option<usize>> = Vec::new();
    let mut k: usize = 0;
    proof {
        assert forall|x: int, f: int| #[trigger] candidate(bars@, opposed@, x, f) <==> candidate_before(bars@, opposed@, opposed@.len() as int, x, f) by {
            if candidate(bars@, opposed@, x, f) {
                let j = choose|j: int| 0 <= j < opposed@.len() && opposed@[j] == (x as usize, f as usize);
                assert(opposed@[j] == (x as usize, f as usize));
            }
        }
    }
    while k < total
        invariant
            k <= total,
            total == 2 * bars.len(),
            sole.len() == total,
            many.len() == total,
            r.len() == k,
            forall|x: int, f: int| #[trigger] candidate(bars@, opposed@, x, f) <==> candidate_before(bars@, opposed@, opposed@.len() as int, x, f),
            forall|x: int|
                0 <= x < total ==> sole_known(
                    bars@,
                    opposed@,
                    opposed@.len() as int,
                    x,
                    #[trigger] sole@[x],
                    many@[x],
                ),
            forall|x: int|
                0 <= x < k ==> is_sole(bars@, opposed@, x, #[trigger] r@[x]),
        decreases total - k,
    {
        assert(sole_known(bars@, opposed@, opposed@.len() as int, k as int, sole@[k as int], many@[k as int]));
        if many[k] {
            r.push(None);
            proof {
                let x = k as int;
                let f = choose|f: int| f != sole@[x]->0 && #[trigger] candidate_before(bars@, opposed@, opposed@.len() as int, x, f);
                assert(candidate(bars@, opposed@, x, f));
                assert(candidate(bars@, opposed@, x, sole@[x]->0 as int));
            }
        } else {
            r.push(sole[k]);
            proof {
                let x = k as int;
                match sole@[x] {
                    Some(g) => {
                        assert(candidate(bars@, opposed@, x, g as int));
                        assert(continues(bars@, opposed@, x, g as int));
                    },
                    None => {},
                }
            }
        }
        k += 1;
    }
    r
}

/// For each bar end, the end that it continues into: the two must be each
/// other's only straight continuation.
pub fn mutual_links(bars: &Vec<Bar>, opposed: &Vec<(usize, usize)>) -> (links: Vec<Option<usize>>)
    requires
        2 * bars.len() < usize::MAX,
    ensures
        links_of(links@, bars@, opposed@),
{
    let sole = sole_candidates(bars, opposed);
    let mut links: Vec<Option<usize>> = Vec::new();
    let mut h: usize = 0;
    while h < sole.len()
        invariant
            h <= sole.len(),
            sole.len() == 2 * bars.len(),
            links.len() == h,
            forall|x: int|
                0 <= x < sole.len() ==> is_sole(bars@, opposed@, x, #[trigger] sole@[x]),
            forall|x: int, g: int|
                0 <= x < h && 0 <= g < sole.len() ==> ((#[trigger] links@[x] == Some(g as usize))
                    <==> #[trigger] mutual(bars@, opposed@, x, g)),
            forall|x: int| 0 <= x < h && #[trigger] links@[x] is Some ==> links@[x]->0 < sole.len(),
        decreases sole.len() - h,
    {
        let mut link: Option<usize> = None;
        match sole[h] {
            Some(g) => {
                assert(continues(bars@, opposed@, h as int, g as int));
                assert(candidate(bars@, opposed@, h as int, g as int));
                match sole[g] {
                    Some(back) => {
                        assert(continues(bars@, opposed@, g as int, back as int));
                        if back == h {
                            link = Some(g);
                        }
                    },
                    None => {},
                }
            },
            None => {},
        }
        links.push(link);
        proof {
            assert forall|x: int, f: int|
                0 <= x < h + 1 && 0 <= f < sole.len() implies ((#[trigger] links@[x] == Some(f as usize))
                    <==> #[trigger] mutual(bars@, opposed@, x, f)) by {
                if x == h {
                    if mutual(bars@, opposed@, x, f) {
                        assert(continues(bars@, opposed@, x, f));
                        assert(sole@[x] is Some);
                        assert(candidate(bars@, opposed@, x, f));
                        assert(candidate(bars@, opposed@, x, sole@[x]->0 as int));
                        assert(sole@[x]->0 == f);
                        assert(continues(bars@, opposed@, f, x));
                        assert(sole@[f] is Some);
                        assert(candidate(bars@, opposed@, f, sole@[f]->0 as int));
                        assert(candidate(bars@, opposed@, f, x));
                        assert(sole@[f]->0 == x);
                    }
                }
            }
        }
        h += 1;
    }
    links
}

/// Links that hold both ways and never within one bar.
pub open spec fn symmetric_links(links: Seq<Option<usize>>) -> bool {
    forall|h: int|
        0 <= h < links.len() && #[trigger] links[h] is Some ==> links[h]->0 < links.len()
            && links[links[h]->0 as int] == Some(h as usize) && links[h]->0 as int / 2 != h / 2
}

/// Whatever the alignment answers are, continuation is symmetric.
pub proof fn links_are_symmetric(
    links: Seq<Option<usize>>,
    bars: Seq<Bar>,
    opposed: Seq<(usize, usize)>,
)
    requires
        links_of(links, bars, opposed),
        links.len() <= usize::MAX,
    ensures
        symmetric_links(links),
{
    assert forall|h: int| 0 <= h < links.len() && #[trigger] links[h] is Some implies links[h]->0
        < links.len() && links[links[h]->0 as int] == Some(h as usize) && links[h]->0 as int / 2 != h
        / 2 by {
        let g = links[h]->0 as int;
        assert(links[h] == Some(g as usize));
        assert(mutual(bars, opposed, h, g));
        assert(mutual(bars, opposed, g, h));
        assert(links[g] == Some(h as usize));
    }
}

/// Bars that continue one another directly.
pub open spec fn linked_bars(links: Seq<Option<usize>>) -> spec_fn(int, int) -> bool {
    |a: int, b: int|
        exists|h: int|
            0 <= h < links.len() && h / 2 == a && (#[trigger] links[h]) is Some && links[h]->0 as int / 2 == b
}

/// The bar end at which step `k` of a walk enters its bar.
pub open spec fn half_at(links: Seq<Option<usize>>, start: int, k: int) -> int
    decreases k,
{
    if k <= 0 {
        start
    } else {
        links[opposite(half_at(links, start, k - 1))]->0 as int
    }
}

/// A walk of `steps` bars along the links, entered at `start`.
pub open spec fn walked(links: Seq<Option<usize>>, start: int, steps: int) -> bool {
    &&& 0 <= start < links.len()
    &&& links.len() % 2 == 0
    &&& forall|k: int|
        0 <= k < steps - 1 ==> links[opposite(#[trigger] half_at(links, start, k))] is Some
}

proof fn half_in_range(links: Seq<Option<usize>>, start: int, steps: int, k: int)
    requires
        symmetric_links(links),
        walked(links, start, steps),
        0 <= k < steps,
    ensures
        0 <= half_at(links, start, k) < links.len(),
        0 <= opposite(half_at(links, start, k)) < links.len(),
        k > 0 ==> links[half_at(links, start, k)] == Some(opposite(half_at(links, start, k - 1)) as usize),
        k > 0 ==> links[opposite(half_at(links, start, k - 1))] == Some(half_at(links, start, k) as usize),
    decreases k,
{
    if k > 0 {
        half_in_range(links, start, steps, k - 1);
        let h = opposite(half_at(links, start, k - 1));
        assert(links[opposite(half_at(links, start, k - 1))] is Some);
        assert(links[links[h]->0 as int] == Some(h as usize));
    }
}

proof fn walk_distinct(links: Seq<Option<usize>>, start: int, steps: int, i: int, j: int)
    requires
        symmetric_links(links),
        walked(links, start, steps),
        links[start] is None,
        0 <= i < j < steps,
        links.len() <= usize::MAX,
    ensures
        half_at(links, start, i) / 2 != half_at(links, start, j) / 2,
    decreases j,
{
    half_in_range(links, start, steps, i);
    half_in_range(links, start, steps, j);
    let a = half_at(links, start, i);
    let b = half_at(links, start, j);
    if a == b {
        if i > 0 {
            half_in_range(links, start, steps, i - 1);
            half_in_range(links, start, steps, j - 1);
            walk_distinct(links, start, steps, i - 1, j - 1);
        }
    } else if a / 2 == b / 2 {
        assert(b == opposite(a));
        half_in_range(links, start, steps, i + 1);
        half_in_range(links, start, steps, j - 1);
        let c = half_at(links, start, i + 1);
        let d = half_at(links, start, j - 1);
        assert(links[opposite(a)] == Some(c as usize));
        assert(links[b] == Some(opposite(d) as usize));
        assert(c == opposite(d));
        if i + 1 < j - 1 {
            walk_distinct(links, start, steps, i + 1, j - 1);
        } else if i + 1 == j {
            assert(links[opposite(a)] == Some(opposite(a) as usize));
        }
    }
}

/// A component of linked bars with an open end is one simple chain: the walk
/// from that end visits every bar of it once.
pub proof fn open_chain_is_covered(
    links: Seq<Option<usize>>,
    n: int,
    start: int,
    path: Seq<usize>,
    members: Seq<usize>,
)
    requires
        symmetric_links(links),
        links.len() == 2 * n,
        links.len() <= usize::MAX,
        path.len() > 0,
        walked(links, start, path.len() as int),
        links[start] is None,
        forall|k: int| 0 <= k < path.len() ==> #[trigger] path[k] == half_at(links, start, k) / 2,
        links[opposite(half_at(links, start, path.len() - 1))] is None,
        ascending_indices(members),
        forall|x: usize| #[trigger]
            members.contains(x) <==> x < n && connected(n, linked_bars(links), start / 2, x as int),
    ensures
        path.no_duplicates(),
        path.len() == members.len(),
        forall|x: usize| path.contains(x) <==> members.contains(x),
        forall|h: int| #[trigger]
            open_end(links, members, h) <==> (h == start || h == opposite(
                half_at(links, start, path.len() - 1),
            )),
{
    let rel = linked_bars(links);
    let steps = path.len() as int;
    assert forall|i: int, j: int| 0 <= i < path.len() && 0 <= j < path.len() && i != j implies path[i] != path[j] by {
        if i < j {
            walk_distinct(links, start, steps, i, j);
        } else {
            walk_distinct(links, start, steps, j, i);
        }
    }
    let inside = |x: int| exists|k: int| 0 <= k < steps && #[trigger] path[k] == x;
    assert forall|x: int, y: int| 0 <= x < n && 0 <= y < n && inside(x) && #[trigger] touch(rel, x, y) implies inside(y) by {
        let k = choose|k: int| 0 <= k < steps && #[trigger] path[k] == x;
        half_in_range(links, start, steps, k);
        let a = half_at(links, start, k);
        let h = if rel(x, y) {
            choose|h: int| 0 <= h < links.len() && h / 2 == x && (#[trigger] links[h]) is Some && links[h]->0 as int / 2 == y
        } else {
            let g = choose|g: int| 0 <= g < links.len() && g / 2 == y && (#[trigger] links[g]) is Some && links[g]->0 as int / 2 == x;
            links[g]->0 as int
        };
        if !rel(x, y) {
            let g = choose|g: int| 0 <= g < links.len() && g / 2 == y && (#[trigger] links[g]) is Some && links[g]->0 as int / 2 == x;
            assert(links[links[g]->0 as int] == Some(g as usize));
        }
        assert(links[h] is Some && links[h]->0 as int / 2 == y && h / 2 == x);
        if h == a {
            assert(k > 0);
            half_in_range(links, start, steps, k - 1);
            assert(path[k - 1] == y);
        } else {
            assert(h == opposite(a));
            assert(k < steps - 1);
            half_in_range(links, start, steps, k + 1);
            assert(path[k + 1] == y);
        }
    }
    assert(path[0] == start / 2);
    assert(inside(start / 2));
    assert forall|x: usize| path.contains(x) <==> members.contains(x) by {
        if members.contains(x) {
            connected_closed(n, rel, start / 2, x as int, inside);
        }
        if path.contains(x) {
            let k = choose|k: int| 0 <= k < path.len() && path[k] == x;
            walk_connected(links, n, start, steps, k);
            half_in_range(links, start, steps, k);
        }
    }
    assert(members.no_duplicates());
    path.unique_seq_to_set();
    members.unique_seq_to_set();
    assert(path.to_set() =~= members.to_set());
    let last = half_at(links, start, steps - 1);
    half_in_range(links, start, steps, steps - 1);
    assert(path.contains(path[0]) && path.contains(path[steps - 1]));
    assert forall|h: int| #[trigger] open_end(links, members, h) <==> (h == start || h == opposite(last)) by {
        if open_end(links, members, h) {
            assert(path.contains((h / 2) as usize));
            let k = choose|k: int| 0 <= k < path.len() && path[k] == (h / 2) as usize;
            half_in_range(links, start, steps, k);
            if h != half_at(links, start, k) {
                assert(h == opposite(half_at(links, start, k)));
            }
        }
    }
}

proof fn walk_connected(links: Seq<Option<usize>>, n: int, start: int, steps: int, k: int)
    requires
        symmetric_links(links),
        links.len() == 2 * n,
        walked(links, start, steps),
        0 <= k < steps,
    ensures
        connected(n, linked_bars(links), start / 2, half_at(links, start, k) / 2),
    decreases k,
{
    let rel = linked_bars(links);
    half_in_range(links, start, steps, k);
    if k == 0 {
        connected_reflexive(n, rel, start / 2);
    } else {
        walk_connected(links, n, start, steps, k - 1);
        half_in_range(links, start, steps, k - 1);
        let a = half_at(links, start, k - 1);
        let b = half_at(links, start, k);
        assert(links[opposite(a)] is Some && links[opposite(a)]->0 as int == b);
        assert(opposite(a) / 2 == a / 2);
        assert(rel(a / 2, b / 2));
        connected_step(n, rel, a / 2, b / 2);
        connected_transitive(n, rel, start / 2, a / 2, b / 2);
    }
}

/// One set of bars that continue one another.
#[derive(Debug)]
pub struct Chain {
    /// Bar indices, ascending.
    pub members: Vec<usize>,
    /// The bars in walking order; empty for a closed ring of bars.
    pub path: Vec<usize>,
    /// The nodes passed, one more than bars in `path`.
    pub nodes: Vec<u32>,
}

/// Lexicographic order of coordinates by their total order.
pub open spec fn point_before(p: Point, q: Point) -> bool {
    ||| p[0].total_rank() < q[0].total_rank()
    ||| p[0].total_rank() == q[0].total_rank() && p[1].total_rank() < q[1].total_rank()
    ||| p[0].total_rank() == q[0].total_rank() && p[1].total_rank() == q[1].total_rank()
        && p[2].total_rank() < q[2].total_rank()
}

pub fn is_point_before(p: &Point, q: &Point) -> (r: bool)
    ensures
        r == point_before(*p, *q),
{
    let (px, qx) = (p[0].total_key(), q[0].total_key());
    let (py, qy) = (p[1].total_key(), q[1].total_key());
    let (pz, qz) = (p[2].total_key(), q[2].total_key());
    px < qx || (px == qx && py < qy) || (px == qx && py == qy && pz < qz)
}

pub open spec fn ends_known(bars: Seq<Bar>, mesh: MeshData) -> bool {
    forall|b: int|
        0 <= b < bars.len() ==> mesh.nodes@.dom().contains((#[trigger] bars[b]).ends[0])
            && mesh.nodes@.dom().contains(bars[b].ends[1])
}

/// A bar end of the chain that nothing continues.
pub open spec fn open_end(links: Seq<Option<usize>>, members: Seq<usize>, h: int) -> bool {
    0 <= h < links.len() && members.contains((h / 2) as usize) && links[h] is None
}

/// The walk starts at the open end with the lesser coordinates; where both
/// have the same coordinates, at the lesser bar end.
pub open spec fn chain_start(
    links: Seq<Option<usize>>,
    bars: Seq<Bar>,
    mesh: MeshData,
    members: Seq<usize>,
    start: int,
) -> bool {
    &&& open_end(links, members, start)
    &&& forall|h: int| #[trigger]
        open_end(links, members, h) && h != start ==> {
            let p = mesh.nodes@[half_node(bars, start)];
            let q = mesh.nodes@[half_node(bars, h)];
            point_before(p, q) || (!point_before(q, p) && start < h)
        }
}

/// `path` and `nodes` follow the links from `start` to where they end.
pub open spec fn chain_walk(
    links: Seq<Option<usize>>,
    bars: Seq<Bar>,
    start: int,
    path: Seq<usize>,
    nodes: Seq<u32>,
) -> bool {
    &&& path.len() > 0
    &&& walked(links, start, path.len() as int)
    &&& forall|k: int| 0 <= k < path.len() ==> #[trigger] path[k] == half_at(links, start, k) / 2
    &&& links[opposite(half_at(links, start, path.len() - 1))] is None
    &&& nodes.len() == path.len() + 1
    &&& nodes[0] == half_node(bars, start)
    &&& forall|k: int|
        0 <= k < path.len() ==> #[trigger] nodes[k + 1] == half_node(
            bars,
            opposite(half_at(links, start, k)),
        )
}

pub open spec fn chain_of(
    chain: Chain,
    links: Seq<Option<usize>>,
    bars: Seq<Bar>,
    mesh: MeshData,
) -> bool {
    if exists|h: int| open_end(links, chain.members@, h) {
        exists|start: int| #[trigger]
            chain_start(links, bars, mesh, chain.members@, start) && chain_walk(
                links,
                bars,
                start,
                chain.path@,
                chain.nodes@,
            )
    } else {
        chain.path@.len() == 0 && chain.nodes@.len() == 0
    }
}

pub open spec fn members_of(chains: Seq<Chain>) -> Seq<Vec<usize>> {
    chains.map_values(|chain: Chain| chain.members)
}

fn link_edges(links: &Vec<Option<usize>>) -> (edges: Vec<(usize, usize)>)
    requires
        symmetric_links(links@),
        links@.len() % 2 == 0,
    ensures
        forall|k: int|
            0 <= k < edges.len() ==> (#[trigger] edges@[k]).0 < links@.len() / 2 && edges@[k].1
                < links@.len() / 2,
        forall|a: int, b: int| #[trigger] touch(pair_relation(edges@), a, b) <==> touch(
            linked_bars(links@),
            a,
            b,
        ),
{
    let mut edges: Vec<(usize, usize)> = Vec::new();
    let mut h: usize = 0;
    while h < links.len()
        invariant
            h <= links.len(),
            symmetric_links(links@),
            links@.len() % 2 == 0,
            forall|k: int|
                0 <= k < edges.len() ==> (#[trigger] edges@[k]).0 < links@.len() / 2 && edges@[k].1
                    < links@.len() / 2 && linked_bars(links@)(edges@[k].0 as int, edges@[k].1 as int),
            forall|g: int|
                0 <= g < h && #[trigger] links@[g] is Some ==> edges@.contains(
                    ((g / 2) as usize, links@[g]->0 / 2),
                ),
        decreases links.len() - h,
    {
        let ghost before = edges@;
        match links[h] {
            Some(g) => {
                edges.push((h / 2, g / 2));
                proof {
                    assert(edges@[edges.len() - 1] == (h / 2, g / 2));
                    assert(links@[h as int] is Some);
                    assert(linked_bars(links@)(h as int / 2, g as int / 2));
                    assert forall|x: (usize, usize)| before.contains(x) implies edges@.contains(x) by {
                        let m = choose|m: int| 0 <= m < before.len() && before[m] == x;
                        assert(edges@[m] == x);
                    }
                }
            },
            None => {},
        }
        h += 1;
    }
    proof {
        let rel = pair_relation(edges@);
        let linked = linked_bars(links@);
        assert forall|a: int, b: int| #[trigger] rel(a, b) <==> linked(a, b) by {
            if rel(a, b) {
                let k = choose|k: int| 0 <= k < edges@.len() && #[trigger] edges@[k] == (a as usize, b as usize) && edges@[k].0 == a && edges@[k].1 == b;
                assert(linked(edges@[k].0 as int, edges@[k].1 as int));
            }
            if linked(a, b) {
                let g = choose|g: int| 0 <= g < links@.len() && g / 2 == a && (#[trigger] links@[g]) is Some && links@[g]->0 as int / 2 == b;
                assert(edges@.contains(((g / 2) as usize, links@[g]->0 / 2)));
                let k = choose|k: int| 0 <= k < edges@.len() && edges@[k] == ((g / 2) as usize, links@[g]->0 / 2);
                assert(edges@[k] == (a as usize, b as usize) && edges@[k].0 == a && edges@[k].1 == b);
            }
        }
        assert forall|a: int, b: int| #[trigger] touch(rel, a, b) <==> touch(linked, a, b) by {
            assert(rel(a, b) == linked(a, b));
            assert(rel(b, a) == linked(b, a));
        }
    }
    edges
}

fn least_open_end(
    links: &Vec<Option<usize>>,
    bars: &Vec<Bar>,
    mesh: &MeshData,
    members: &Vec<usize>,
) -> (r: Option<usize>)
    requires
        links.len() == 2 * bars.len(),
        2 * bars.len() < usize::MAX,
        ends_known(bars@, *mesh),
        ascending_indices(members@),
        forall|m: int| 0 <= m < members.len() ==> #[trigger] members@[m] < bars.len(),
    ensures
        match r {
            Some(start) => chain_start(links@, bars@, *mesh, members@, start as int),
            None => forall|h: int| !#[trigger] open_end(links@, members@, h),
        },
{
    let mut best: Option<(usize, Point)> = None;
    let mut m: usize = 0;
    while m < members.len()
        invariant
            m <= members.len(),
            links.len() == 2 * bars.len(),
            2 * bars.len() < usize::MAX,
            ends_known(bars@, *mesh),
            ascending_indices(members@),
            forall|m: int| 0 <= m < members.len() ==> #[trigger] members@[m] < bars.len(),
            least_among(links@, bars@, *mesh, members@, m as int, 0, best),
        decreases members.len() - m,
    {
        let mut side: usize = 0;
        while side < 2
            invariant
                m < members.len(),
                side <= 2,
                links.len() == 2 * bars.len(),
                2 * bars.len() < usize::MAX,
                ends_known(bars@, *mesh),
                ascending_indices(members@),
                forall|m: int| 0 <= m < members.len() ==> #[trigger] members@[m] < bars.len(),
                least_among(links@, bars@, *mesh, members@, m as int, side as int, best),
            decreases 2 - side,
        {
            let b: usize = members[m];
            assert(b < bars.len());
            let h: usize = 2 * b + side;
            assert(h / 2 == b && h % 2 == side);
            let ghost before = best;
            match links[h] {
                None => {
                    let node: u32 = half_node_at(bars, h);
                    assert(mesh.nodes@.dom().contains(bars@[b as int].ends[side as int]));
                    match mesh.nodes.get(node) {
                        Some(q) => {
                            let better: bool = match best {
                                Some((_, p)) => is_point_before(&q, &p),
                                None => true,
                            };
                            if better {
                                best = Some((h, q));
                            }
                        },
                        None => {},
                    }
                    assert(members@.contains((h as int / 2) as usize));
                    assert(open_end(links@, members@, h as int));
                },
                Some(_) => {},
            }
            proof {
                assert forall|g: int| #[trigger] visited_end(links@, members@, m as int, side + 1, g) implies visited_end(links@, members@, m as int, side as int, g) || g == h by {
                    let k = choose|k: int| 0 <= k <= m && #[trigger] members@[k] == g / 2 && (k < m || g % 2 < side + 1);
                    if k == m && g % 2 == side {
                        assert(g == h);
                    } else {
                        assert(members@[k] == g / 2);
                    }
                }
                assert forall|g: int| visited_end(links@, members@, m as int, side as int, g) implies #[trigger] visited_end(links@, members@, m as int, side + 1, g) && g < h by {
                    let k = choose|k: int| 0 <= k <= m && #[trigger] members@[k] == g / 2 && (k < m || g % 2 < side);
                    assert(members@[k] == g / 2 && (k < m || g % 2 < side + 1));
                    if k < m {
                        assert(members@[k] < members@[m as int]);
                    }
                }
                if links@[h as int] is None {
                    assert(members@[m as int] == h as int / 2);
                    assert(visited_end(links@, members@, m as int, side + 1, h as int));
                }
            }
            side += 1;
        }
        proof {
            assert forall|g: int| #[trigger] visited_end(links@, members@, m + 1, 0, g) <==> visited_end(links@, members@, m as int, 2, g) by {
                if visited_end(links@, members@, m + 1, 0, g) {
                    let k = choose|k: int| 0 <= k <= m + 1 && #[trigger] members@[k] == g / 2 && (k < m + 1 || g % 2 < 0);
                    assert(0 <= k <= m && members@[k] == g / 2);
                }
                if visited_end(links@, members@, m as int, 2, g) {
                    let k = choose|k: int| 0 <= k <= m && #[trigger] members@[k] == g / 2 && (k < m || g % 2 < 2);
                    assert(members@[k] == g / 2 && k < m + 1);
                }
            }
        }
        m += 1;
    }
    proof {
        assert forall|g: int| #[trigger] open_end(links@, members@, g) implies visited_end(links@, members@, m as int, 0, g) by {
            let k = choose|k: int| 0 <= k < members@.len() && members@[k] == (g / 2) as usize;
            assert(members@[k] == g / 2 && k < m);
        }
    }
    match best {
        Some((start, _)) => Some(start),
        None => None,
    }
}

spec fn visited_end(links: Seq<Option<usize>>, members: Seq<usize>, m: int, side: int, h: int) -> bool {
    &&& 0 <= h < links.len()
    &&& links[h] is None
    &&& exists|k: int| 0 <= k <= m && k < members.len() && #[trigger] members[k] == h / 2 && (k < m || h % 2 < side)
}

spec fn least_among(
    links: Seq<Option<usize>>,
    bars: Seq<Bar>,
    mesh: MeshData,
    members: Seq<usize>,
    m: int,
    side: int,
    best: Option<(usize, Point)>,
) -> bool {
    match best {
        Some((start, p)) => {
            &&& visited_end(links, members, m, side, start as int)
            &&& open_end(links, members, start as int)
            &&& p == mesh.nodes@[half_node(bars, start as int)]
            &&& forall|h: int|
                #![trigger visited_end(links, members, m, side, h)]
                visited_end(links, members, m, side, h) && h != start ==> {
                    let q = mesh.nodes@[half_node(bars, h)];
                    point_before(p, q) || (!point_before(q, p) && start < h)
                }
        },
        None => forall|h: int| !#[trigger] visited_end(links, members, m, side, h),
    }
}

fn follow(
    links: &Vec<Option<usize>>,
    bars: &Vec<Bar>,
    start: usize,
) -> (r: (Vec<usize>, Vec<u32>))
    requires
        links.len() == 2 * bars.len(),
        2 * bars.len() < usize::MAX,
        symmetric_links(links@),
        start < links.len(),
        links@[start as int] is None,
    ensures
        chain_walk(links@, bars@, start as int, r.0@, r.1@),
{
    let mut path: Vec<usize> = Vec::new();
    let mut nodes: Vec<u32> = Vec::new();
    nodes.push(half_node_at(bars, start));
    let mut h: usize = start;
    let ghost total = links@.len() as int;
    loop
        invariant
            total == links@.len(),
            links.len() == 2 * bars.len(),
            2 * bars.len() < usize::MAX,
            symmetric_links(links@),
            start < links.len(),
            links@[start as int] is None,
            walked(links@, start as int, path.len() + 1),
            h == half_at(links@, start as int, path.len() as int),
            0 <= h < links.len(),
            forall|k: int| 0 <= k < path.len() ==> #[trigger] path@[k] == half_at(links@, start as int, k) / 2,
            nodes.len() == path.len() + 1,
            nodes@[0] == half_node(bars@, start as int),
            forall|k: int|
                0 <= k < path.len() ==> #[trigger] nodes@[k + 1] == half_node(
                    bars@,
                    opposite(half_at(links@, start as int, k)),
                ),
            path.len() <= bars.len(),
        decreases bars.len() - path.len(),
    {
        let ghost done = path.len() as int;
        proof {
            half_in_range(links@, start as int, done + 1, done);
            distinct_bound(links@, start as int, path@, bars.len() as int);
        }
        path.push(h / 2);
        let leaving: usize = opposite_of(h);
        let node: u32 = half_node_at(bars, leaving);
        nodes.push(node);
        match links[leaving] {
            Some(next) => {
                proof {
                    assert forall|k: int| 0 <= k < done + 1 implies links@[opposite(#[trigger] half_at(links@, start as int, k))] is Some by {
                        if k < done {
                        }
                    }
                    assert(half_at(links@, start as int, done + 1) == next);
                }
                h = next;
            },
            None => {
                return (path, nodes);
            },
        }
    }
}

proof fn distinct_bound(links: Seq<Option<usize>>, start: int, path: Seq<usize>, n: int)
    requires
        symmetric_links(links),
        links.len() == 2 * n,
        links.len() <= usize::MAX,
        walked(links, start, path.len() as int + 1),
        links[start] is None,
        forall|k: int| 0 <= k < path.len() ==> #[trigger] path[k] == half_at(links, start, k) / 2,
    ensures
        path.len() < n,
{
    let longer = path.push((half_at(links, start, path.len() as int) / 2) as usize);
    half_in_range(links, start, path.len() as int + 1, path.len() as int);
    assert forall|i: int, j: int| 0 <= i < longer.len() && 0 <= j < longer.len() && i != j implies longer[i] != longer[j] by {
        if i < j {
            walk_distinct(links, start, path.len() as int + 1, i, j);
        } else {
            walk_distinct(links, start, path.len() as int + 1, j, i);
        }
    }
    longer.unique_seq_to_set();
    let all = vstd::set_lib::set_int_range(0, n);
    vstd::set_lib::lemma_int_range(0, n);
    let seen = longer.map_values(|x: usize| x as int);
    assert(seen.no_duplicates());
    seen.unique_seq_to_set();
    assert(seen.to_set().subset_of(all)) by {
        assert forall|x: int| seen.to_set().contains(x) implies all.contains(x) by {
            let k = choose|k: int| 0 <= k < seen.len() && seen[k] == x;
            half_in_range(links, start, path.len() as int + 1, k);
            assert(longer[k] == half_at(links, start, k) / 2);
        }
    }
    vstd::set_lib::lemma_len_subset(seen.to_set(), all);
}

/// Gathers the bars into chains, ordered by their least bars, and walks each
/// chain that has an open end.
pub fn chains(mesh: &MeshData, bars: &Vec<Bar>, links: &Vec<Option<usize>>) -> (r: Vec<Chain>)
    requires
        links.len() == 2 * bars.len(),
        2 * bars.len() < usize::MAX,
        symmetric_links(links@),
        ends_known(bars@, *mesh),
    ensures
        components_of(members_of(r@), bars.len() as int, linked_bars(links@)),
        forall|c: int| 0 <= c < r.len() ==> chain_of(#[trigger] r@[c], links@, bars@, *mesh),
{
    let edges = link_edges(links);
    let groups = connected_groups(bars.len(), &edges);
    proof {
        let n = bars.len() as int;
        assert forall|x: int, y: int| 0 <= x < n && 0 <= y < n && #[trigger] touch(pair_relation(edges@), x, y) implies connected(n, linked_bars(links@), x, y) by {
            connected_step(n, linked_bars(links@), x, y);
        }
        assert forall|x: int, y: int| 0 <= x < n && 0 <= y < n && #[trigger] touch(linked_bars(links@), x, y) implies connected(n, pair_relation(edges@), x, y) by {
            assert(touch(pair_relation(edges@), x, y));
            connected_step(n, pair_relation(edges@), x, y);
        }
        crate::connectivity::components_transfer(groups@, n, pair_relation(edges@), linked_bars(links@));
    }
    let ghost wanted = groups@;
    let mut rest = groups;
    let mut r: Vec<Chain> = Vec::new();
    let mut g: usize = 0;
    while g < rest.len()
        invariant
            g <= rest.len(),
            rest@ == wanted,
            links.len() == 2 * bars.len(),
            2 * bars.len() < usize::MAX,
            symmetric_links(links@),
            ends_known(bars@, *mesh),
            components_of(wanted, bars.len() as int, linked_bars(links@)),
            r.len() == g,
            forall|c: int| 0 <= c < g ==> (#[trigger] r@[c]).members@ == wanted[c]@ && chain_of(r@[c], links@, bars@, *mesh),
        decreases rest.len() - g,
    {
        let members = crate::ordering::copy_indices(&rest[g]);
        proof {
            assert(rest@[g as int]@.len() > 0 && ascending_indices(rest@[g as int]@));
            assert forall|m: int| 0 <= m < members.len() implies #[trigger] members@[m] < bars.len() by {
                assert(wanted[g as int]@[m] < bars.len());
            }
        }
        match least_open_end(links, bars, mesh, &members) {
            Some(start) => {
                assert(open_end(links@, members@, start as int));
                let (path, nodes) = follow(links, bars, start);
                let chain = Chain { members, path, nodes };
                assert(chain_start(links@, bars@, *mesh, chain.members@, start as int));
                r.push(chain);
            },
            None => {
                r.push(Chain { members, path: Vec::new(), nodes: Vec::new() });
            },
        }
        g += 1;
    }
    proof {
        transfer_views(wanted, members_of(r@), bars.len() as int, linked_bars(links@));
    }
    r
}

proof fn transfer_views(first: Seq<Vec<usize>>, second: Seq<Vec<usize>>, n: int, rel: spec_fn(int, int) -> bool)
    requires
        components_of(first, n, rel),
        first.len() == second.len(),
        forall|g: int| 0 <= g < first.len() ==> (#[trigger] second[g])@ == first[g]@,
    ensures
        components_of(second, n, rel),
{
    assert forall|g: int| 0 <= g < second.len() implies (#[trigger] second[g])@.len() > 0 && ascending_indices(second[g]@) by {
        assert(first[g]@.len() > 0);
    }
    assert forall|g: int, k: int| 0 <= g < second.len() && 0 <= k < second[g]@.len() implies #[trigger] second[g]@[k] < n by {
        assert(first[g]@[k] < n);
    }
    assert forall|i: int| 0 <= i < n implies #[trigger] in_some_group(second, i) by {
        assert(in_some_group(first, i));
        let (g, k) = choose|g: int, k: int| 0 <= g < first.len() && 0 <= k < first[g]@.len() && #[trigger] first[g]@[k] == i;
        assert(second[g]@[k] == i);
    }
    assert forall|g: int, h: int, k: int, l: int|
        #![trigger second[g]@[k], second[h]@[l]]
        0 <= g < second.len() && 0 <= h < second.len() && 0 <= k < second[g]@.len() && 0 <= l
            < second[h]@.len() implies (connected(n, rel, second[g]@[k] as int, second[h]@[l] as int)
            <==> g == h) by {
        assert(first[g]@[k] == second[g]@[k] && first[h]@[l] == second[h]@[l]);
    }
    assert forall|g: int, h: int| 0 <= g < h < second.len() implies #[trigger] second[g]@[0] < #[trigger] second[h]@[0] by {
        assert(first[g]@[0] < first[h]@[0]);
    }
}

/// What was measured of a path against the chord between its two end nodes.
#[derive(Debug)]
pub struct ChordMeasure {
    pub endpoints: [Point; 2],
    pub length: Scalar,
    /// Position of each node along the chord, 0 at its start and 1 at its end.
    pub parameters: Vec<Scalar>,
    /// Distance of each node from the chord.
    pub distances: Vec<Scalar>,
    /// Whether each bar keeps to the direction of the chord.
    pub along: Vec<bool>,
}

/// The path fits its chord: the chord has a length, no node is off it, the
/// nodes follow one another along it and every bar keeps to its direction.
pub open spec fn fits_chord(policy: Policy, measure: ChordMeasure) -> bool {
    &&& !measure.length.le(policy.numerical_precision)
    &&& forall|k: int|
        0 <= k < measure.distances@.len() ==> !policy.line_tolerance.lt(
            #[trigger] measure.distances@[k],
        )
    &&& forall|k: int, l: int|
        #![trigger measure.parameters@[k], measure.parameters@[l]]
        0 <= k && l == k + 1 && l < measure.parameters@.len() ==> !measure.parameters@[l].le(
            measure.parameters@[k],
        )
    &&& forall|k: int| 0 <= k < measure.along@.len() ==> #[trigger] measure.along@[k]
}

pub open spec fn measure_complete(measure: ChordMeasure, path: Seq<usize>, nodes: Seq<u32>) -> bool {
    &&& path.len() > 0
    &&& nodes.len() == path.len() + 1
    &&& measure.parameters@.len() == nodes.len()
    &&& measure.distances@.len() == nodes.len()
    &&& measure.along@.len() == path.len()
}

/// The axis that stands for a path.
pub open spec fn axis_of(
    axis: RecognizedAxis,
    mesh: MeshData,
    bars: Seq<Bar>,
    path: Seq<usize>,
    nodes: Seq<u32>,
    measure: ChordMeasure,
) -> bool {
    &&& axis.endpoints == measure.endpoints
    &&& axis.endpoint_nodes[0] == nodes[0]
    &&& axis.endpoint_nodes[1] == nodes.last()
    &&& axis.spans@.len() == path.len()
    &&& forall|k: int|
        0 <= k < path.len() ==> #[trigger] axis.spans@[k] == (SourceSpan {
            element: bars[path[k] as int].id,
            stiffness: bars[path[k] as int].stiffness,
            start_t: measure.parameters@[k],
            end_t: measure.parameters@[k + 1],
        })
    &&& axis.anchors@.len() == nodes.len()
    &&& forall|k: int|
        0 <= k < nodes.len() ==> (#[trigger] axis.anchors@[k]).node == nodes[k] && axis.anchors@[k].t
            == measure.parameters@[k] && axis.anchors@[k].distance_to_axis == measure.distances@[k]
            && incident_list(axis.anchors@[k].incident_elements@, mesh.elements@, nodes[k])
}

/// Whether the measured path is accepted as one axis.
#[verifier::loop_isolation(false)]
pub fn accepts(policy: &Policy, measure: &ChordMeasure) -> (r: bool)
    ensures
        r == fits_chord(*policy, *measure),
{
    if measure.length.at_most(&policy.numerical_precision) {
        return false;
    }
    let mut k: usize = 0;
    while k < measure.distances.len()
        invariant
            k <= measure.distances.len(),
            forall|i: int| 0 <= i < k ==> !policy.line_tolerance.lt(#[trigger] measure.distances@[i]),
        decreases measure.distances.len() - k,
    {
        if policy.line_tolerance.less(&measure.distances[k]) {
            return false;
        }
        k += 1;
    }
    let mut l: usize = 1;
    while l < measure.parameters.len()
        invariant
            1 <= l,
            forall|i: int, j: int|
                #![trigger measure.parameters@[i], measure.parameters@[j]]
                0 <= i && j == i + 1 && j < l && j < measure.parameters.len() ==> !measure.parameters@[j].le(
                    measure.parameters@[i],
                ),
        decreases measure.parameters.len() - l,
    {
        if measure.parameters[l].at_most(&measure.parameters[l - 1]) {
            assert(measure.parameters@[l as int].le(measure.parameters@[l - 1]));
            return false;
        }
        l += 1;
    }
    let mut b: usize = 0;
    while b < measure.along.len()
        invariant
            b <= measure.along.len(),
            forall|i: int| 0 <= i < b ==> #[trigger] measure.along@[i],
        decreases measure.along.len() - b,
    {
        if !measure.along[b] {
            return false;
        }
        b += 1;
    }
    true
}

/// Builds the axis of a path where the path fits its chord.
#[verifier::loop_isolation(false)]
pub fn build_axis(
    policy: &Policy,
    mesh: &MeshData,
    incidence: &Incidence,
    bars: &Vec<Bar>,
    path: &Vec<usize>,
    nodes: &Vec<u32>,
    measure: &ChordMeasure,
) -> (r: Option<RecognizedAxis>)
    requires
        measure_complete(*measure, path@, nodes@),
        incidence.describes(mesh.elements@),
        forall|k: int| 0 <= k < path.len() ==> #[trigger] path@[k] < bars.len(),
    ensures
        match r {
            Some(axis) => fits_chord(*policy, *measure) && axis_of(
                axis,
                *mesh,
                bars@,
                path@,
                nodes@,
                *measure,
            ),
            None => !fits_chord(*policy, *measure),
        },
{
    if !accepts(policy, measure) {
        return None;
    }
    let mut spans: Vec<SourceSpan> = Vec::new();
    let mut k: usize = 0;
    while k < path.len()
        invariant
            k <= path.len(),
            spans.len() == k,
            forall|i: int|
                0 <= i < k ==> #[trigger] spans@[i] == (SourceSpan {
                    element: bars@[path@[i] as int].id,
                    stiffness: bars@[path@[i] as int].stiffness,
                    start_t: measure.parameters@[i],
                    end_t: measure.parameters@[i + 1],
                }),
        decreases path.len() - k,
    {
        let bar: usize = path[k];
        spans.push(
            SourceSpan {
                element: bars[bar].id,
                stiffness: bars[bar].stiffness,
                start_t: measure.parameters[k],
                end_t: measure.parameters[k + 1],
            },
        );
        k += 1;
    }
    let mut anchors: Vec<SourceAnchor> = Vec::new();
    let mut n: usize = 0;
    while n < nodes.len()
        invariant
            n <= nodes.len(),
            anchors.len() == n,
            forall|i: int|
                0 <= i < n ==> (#[trigger] anchors@[i]).node == nodes@[i] && anchors@[i].t
                    == measure.parameters@[i] && anchors@[i].distance_to_axis
                    == measure.distances@[i] && incident_list(
                    anchors@[i].incident_elements@,
                    mesh.elements@,
                    nodes@[i],
                ),
        decreases nodes.len() - n,
    {
        let incident_elements = incidence.of(nodes[n]);
        anchors.push(
            SourceAnchor {
                node: nodes[n],
                t: measure.parameters[n],
                distance_to_axis: measure.distances[n],
                incident_elements,
            },
        );
        n += 1;
    }
    Some(
        RecognizedAxis {
            endpoints: measure.endpoints,
            endpoint_nodes: [nodes[0], nodes[nodes.len() - 1]],
            spans,
            anchors,
        },
    )
}

/// A policy is usable exactly with a positive angle below a quarter of the half turn and a
/// positive precision that is not above the tolerance.
pub proof fn axis_policies_are_graded(policy: Policy)
    ensures
        policy.valid() ==> Scalar::spec_zero().lt(policy.angle) && policy.angle.lt(Scalar { bits: 0x3fe9_21fb_5444_2d18 })
            && Scalar::spec_zero().lt(policy.numerical_precision) && policy.numerical_precision.le(policy.line_tolerance)
            && policy.line_tolerance.finite(),
        Scalar::spec_zero().lt(policy.angle) && policy.angle.lt(Scalar { bits: 0x3fe9_21fb_5444_2d18 })
            && Scalar::spec_zero().lt(policy.numerical_precision) && policy.numerical_precision.finite()
            && policy.numerical_precision.le(policy.line_tolerance) && policy.line_tolerance.finite() ==> policy.valid(),
{
}

/// An element takes part in axes exactly when it is a bar between two different nodes, both
/// placed, whose distance exceeds the precision. Every other bar is refused for one reason.
pub proof fn usable_bars_have_a_length(mesh: MeshData, policy: Policy, element: ElementData, length: Scalar)
    ensures
        usable(mesh, policy, element, length) ==> element.bar() && element.nodes@[0] != element.nodes@[1] && length.finite()
            && !length.le(policy.numerical_precision) && placed(mesh, element.nodes@[0]) && placed(mesh, element.nodes@[1]),
        element.bar() && element.nodes@[0] != element.nodes@[1] && length.finite() && policy.numerical_precision.lt(length) && placed(
            mesh,
            element.nodes@[0],
        ) && placed(mesh, element.nodes@[1]) ==> usable(mesh, policy, element, length),
        !element.bar() ==> !misplaced(mesh, element) && !degenerate(mesh, policy, element, length),
        !(misplaced(mesh, element) && degenerate(mesh, policy, element, length)),
        element.bar() ==> usable(mesh, policy, element, length) || misplaced(mesh, element) || degenerate(
            mesh,
            policy,
            element,
            length,
        ),
{
}

/// A node is placed exactly when it is known and all its coordinates are finite.
pub proof fn placed_nodes_are_finite(mesh: MeshData, node: u32)
    ensures
        placed(mesh, node) <==> mesh.nodes@.dom().contains(node) && forall|d: int|
            0 <= d < 3 ==> (#[trigger] mesh.nodes@[node][d]).finite(),
{
    if placed(mesh, node) {
        assert forall|d: int| 0 <= d < 3 implies (#[trigger] mesh.nodes@[node][d]).finite() by {
            assert(d == 0 || d == 1 || d == 2);
        }
    }
    if forall|d: int| 0 <= d < 3 ==> (#[trigger] mesh.nodes@[node][d]).finite() {
        assert(mesh.nodes@[node][0].finite() && mesh.nodes@[node][1].finite() && mesh.nodes@[node][2].finite());
    }
}

/// Going to the other end and back leads to the same end, and never to another bar.
pub proof fn bars_have_two_ends(h: int)
    requires
        0 <= h,
    ensures
        opposite(opposite(h)) == h,
        opposite(h) != h,
        opposite(h) / 2 == h / 2,
{
}

/// Bar ends continue one another only at a common node, between different bars, and only
/// where each is the one straight continuation of the other.
pub proof fn continuations_are_unique(bars: Seq<Bar>, opposed: Seq<(usize, usize)>, h: int, g: int, f: int)
    requires
        mutual(bars, opposed, h, g),
        mutual(bars, opposed, h, f) || mutual(bars, opposed, f, g),
    ensures
        mutual(bars, opposed, h, f) ==> f == g,
        mutual(bars, opposed, f, g) ==> f == h,
        mutual(bars, opposed, g, h),
        h / 2 != g / 2,
        bars[h / 2].ends[h % 2] == bars[g / 2].ends[g % 2],
{
}

/// Points come by x, then by y, then by z.
pub proof fn points_come_in_one_order(p: Point, q: Point)
    ensures
        p[0].total_rank() < q[0].total_rank() ==> point_before(p, q),
        p[0] == q[0] && p[1].total_rank() < q[1].total_rank() ==> point_before(p, q),
        p[0] == q[0] && p[1] == q[1] ==> (point_before(p, q) <==> p[2].total_rank() < q[2].total_rank()),
        !(point_before(p, q) && point_before(q, p)),
        p == q || point_before(p, q) || point_before(q, p),
{
    if !point_before(p, q) && !point_before(q, p) {
        crate::scalar::total_rank_injective(p[0], q[0]);
        crate::scalar::total_rank_injective(p[1], q[1]);
        crate::scalar::total_rank_injective(p[2], q[2]);
        assert(p =~= q);
    }
}

/// A path is one axis exactly when its chord has a length, its nodes lie on it within the
/// tolerance and follow one another, and its bars keep to its direction.
pub proof fn straight_paths_fit_their_chord(policy: Policy, measure: ChordMeasure)
    ensures
        fits_chord(policy, measure) ==> {
            &&& !measure.length.le(policy.numerical_precision)
            &&& forall|k: int| 0 <= k < measure.distances@.len() ==> !policy.line_tolerance.lt(#[trigger] measure.distances@[k])
            &&& forall|k: int| 0 < k < measure.parameters@.len() ==> !(#[trigger] measure.parameters@[k]).le(measure.parameters@[k - 1])
            &&& forall|k: int| 0 <= k < measure.along@.len() ==> #[trigger] measure.along@[k]
        },
        policy.numerical_precision.lt(measure.length) && (forall|k: int|
            0 <= k < measure.distances@.len() ==> (#[trigger] measure.distances@[k]).le(policy.line_tolerance)) && (forall|k: int, l: int|
            #![trigger measure.parameters@[k], measure.parameters@[l]]
            0 <= k < l < measure.parameters@.len() ==> measure.parameters@[k].lt(measure.parameters@[l])) && (forall|k: int|
            0 <= k < measure.along@.len() ==> #[trigger] measure.along@[k]) ==> fits_chord(policy, measure),
{
    if fits_chord(policy, measure) {
        assert forall|k: int| 0 < k < measure.parameters@.len() implies !(#[trigger] measure.parameters@[k]).le(
            measure.parameters@[k - 1],
        ) by {
            let l = k - 1;
            assert(!measure.parameters@[k].le(measure.parameters@[l]));
        }
    }
}

/// The spans of an axis follow its path: each is the bar at its place, with its own number and
/// stiffness, between the anchors at both its ends, so that spans join without a gap.
pub proof fn spans_join_along_the_axis(
    axis: RecognizedAxis,
    mesh: MeshData,
    bars: Seq<Bar>,
    path: Seq<usize>,
    nodes: Seq<u32>,
    measure: ChordMeasure,
    k: int,
)
    requires
        axis_of(axis, mesh, bars, path, nodes, measure),
        measure_complete(measure, path, nodes),
        0 <= k < path.len(),
    ensures
        axis.spans@.len() == path.len(),
        axis.anchors@.len() == axis.spans@.len() + 1,
        axis.spans@[k].element == bars[path[k] as int].id,
        axis.spans@[k].stiffness == bars[path[k] as int].stiffness,
        axis.spans@[k].start_t == axis.anchors@[k].t,
        axis.spans@[k].end_t == axis.anchors@[k + 1].t,
        k + 1 < path.len() ==> axis.spans@[k].end_t == axis.spans@[k + 1].start_t,
        axis.anchors@[k].node == nodes[k],
        axis.anchors@[k + 1].node == nodes[k + 1],
        axis.endpoint_nodes[0] == axis.anchors@[0].node,
        axis.endpoint_nodes[1] == axis.anchors@.last().node,
{
    assert(axis.spans@[k].element == bars[path[k] as int].id);
    assert(axis.anchors@[k].node == nodes[k]);
    assert(axis.anchors@[k + 1].node == nodes[k + 1]);
    assert(axis.anchors@[0].node == nodes[0]);
    assert(axis.anchors@[nodes.len() - 1].node == nodes[nodes.len() - 1]);
    if k + 1 < path.len() {
        assert(axis.spans@[k + 1].start_t == measure.parameters@[k + 1]);
    }
}

} // verus!
