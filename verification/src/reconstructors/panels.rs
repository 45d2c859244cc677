//! Slabs and walls from shell elements.
use vstd::prelude::*;
use crate::connectivity::{components_of, connected_groups, pair_relation, same_relation};
use crate::edges::{edges_ascend, key, lists_edge, Edge};
use crate::geometry::partition::node_edge;
use crate::geometry::utils::{name_of, NodeNames};
use crate::input::{ElementData, Point};
use crate::models::{MacroPanel, PanelType};
use crate::ordering::{append_ids, ascending_indices, before_by, lists_id, ordered_by, sorted_by_keys};
use crate::reconstruction::assembly::boundary::{edge_of, edge_of_number, edge_owners, edge_table, edge_uses, Face};
use crate::reconstruction::planes::edge_number;
use crate::reconstructors::bars::{in_order, sort_ids};
use crate::registry::Lists;
use crate::scalar::Scalar;

verus! {

/// 1e-7
pub const FLAT: u64 = 0x3e7a_d7f2_9abc_af48;

/// 1e-8
pub const ON_LINE: u64 = 0x3e45_798e_e230_8c3a;

/// 1e-12
pub const NO_AREA: u64 = 0x3d71_9799_812d_ea11;

/// 1e-20
pub const NO_CHORD: u64 = 0x3bc7_9ca1_0c92_4223;

/// The names of the nodes of an element, each at its first place.
pub open spec fn first_names(nodes: Seq<u32>, names: Map<u32, u32>, upto: int) -> Seq<u32>
    decreases upto,
{
    if upto <= 0 {
        Seq::empty()
    } else {
        let rest = first_names(nodes, names, upto - 1);
        let name = name_of(names, nodes[upto - 1]);
        if rest.contains(name) {
            rest
        } else {
            rest.push(name)
        }
    }
}

pub fn face_nodes(element: &ElementData, names: &NodeNames) -> (r: Vec<u32>)
    ensures
        r@ == first_names(element.nodes@, names@, element.nodes@.len() as int),
{
    let mut r: Vec<u32> = Vec::new();
    let mut k: usize = 0;
    while k < element.nodes.len()
        invariant
            k <= element.nodes@.len(),
            r@ == first_names(element.nodes@, names@, k as int),
        decreases element.nodes@.len() - k,
    {
        let name: u32 = names.canonical(element.nodes[k]);
        if !lists_id(&r, name) {
            r.push(name);
        }
        k += 1;
    }
    r
}

/// What is measured of a shell element.
#[derive(Debug)]
pub struct ShellMeasure {
    /// Every node has a place.
    pub placed: bool,
    /// All coordinates are finite.
    pub finite: bool,
    /// Length of the product of two sides.
    pub normal_length: Scalar,
    /// Distances of its nodes to its plane.
    pub deviations: Vec<Scalar>,
    pub tolerance: Scalar,
}

/// A shell element that a panel can be made of. Warped ones are not flattened.
pub open spec fn usable_shell(nodes: Seq<u32>, measure: ShellMeasure) -> bool {
    &&& nodes.len() >= 3
    &&& measure.placed
    &&& measure.finite
    &&& !measure.normal_length.lt(Scalar { bits: FLAT })
    &&& forall|k: int|
        0 <= k < measure.deviations@.len() ==> !measure.tolerance.lt(#[trigger] measure.deviations@[k])
}

pub fn is_usable_shell(nodes: &Vec<u32>, measure: &ShellMeasure) -> (r: bool)
    ensures
        r == usable_shell(nodes@, *measure),
{
    if nodes.len() < 3 || !measure.placed || !measure.finite || measure.normal_length.less(&Scalar { bits: FLAT }) {
        return false;
    }
    let mut k: usize = 0;
    while k < measure.deviations.len()
        invariant
            k <= measure.deviations@.len(),
            forall|m: int| 0 <= m < k ==> !measure.tolerance.lt(#[trigger] measure.deviations@[m]),
        decreases measure.deviations@.len() - k,
    {
        if measure.tolerance.less(&measure.deviations[k]) {
            assert(measure.tolerance.lt(measure.deviations@[k as int]));
            return false;
        }
        k += 1;
    }
    true
}

/// A shell element by its named nodes.
#[derive(Debug)]
pub struct ParsedShell {
    pub id: u32,
    pub stiff_id: u32,
    pub nodes: Vec<u32>,
}

/// Two shells over the same nodes.
pub open spec fn same_face(a: ParsedShell, b: ParsedShell) -> bool {
    forall|x: u32| #[trigger] a.nodes@.contains(x) <==> b.nodes@.contains(x)
}

pub open spec fn first_face(shells: Seq<ParsedShell>, i: int) -> bool {
    forall|j: int| 0 <= j < i ==> !same_face(#[trigger] shells[j], shells[i])
}

/// A face whose shells have different properties.
pub open spec fn conflicting(shells: Seq<ParsedShell>, i: int) -> bool {
    exists|j: int|
        0 <= j < shells.len() && same_face(shells[i], #[trigger] shells[j]) && shells[j].stiff_id
            != shells[i].stiff_id
}

/// The shells over the face of shell `i`, among the first.
pub open spec fn sources(shells: Seq<ParsedShell>, i: int, upto: int) -> Seq<u32>
    decreases upto,
{
    if upto <= 0 {
        Seq::empty()
    } else if same_face(shells[i], shells[upto - 1]) {
        sources(shells, i, upto - 1).push(shells[upto - 1].id)
    } else {
        sources(shells, i, upto - 1)
    }
}

/// A face with all elements that lie over it.
#[derive(Debug)]
pub struct CoalescedFace {
    /// The first shell over it.
    pub shell: usize,
    pub source_ids: Vec<u32>,
}

pub open spec fn coalesced_upto(shells: Seq<ParsedShell>, upto: int) -> Seq<int>
    decreases upto,
{
    if upto <= 0 {
        Seq::empty()
    } else if first_face(shells, upto - 1) && !conflicting(shells, upto - 1) {
        coalesced_upto(shells, upto - 1).push(upto - 1)
    } else {
        coalesced_upto(shells, upto - 1)
    }
}

fn contains_all(a: &Vec<u32>, b: &Vec<u32>) -> (r: bool)
    ensures
        r == (forall|x: u32| #[trigger] a@.contains(x) ==> b@.contains(x)),
{
    let mut k: usize = 0;
    while k < a.len()
        invariant
            k <= a@.len(),
            forall|m: int| 0 <= m < k ==> b@.contains(#[trigger] a@[m]),
        decreases a@.len() - k,
    {
        if !lists_id(b, a[k]) {
            assert(a@.contains(a@[k as int]));
            return false;
        }
        k += 1;
    }
    assert forall|x: u32| #[trigger] a@.contains(x) implies b@.contains(x) by {
        let m = choose|m: int| 0 <= m < a@.len() && a@[m] == x;
        assert(b@.contains(a@[m]));
    }
    true
}

fn is_same_face(a: &ParsedShell, b: &ParsedShell) -> (r: bool)
    ensures
        r == same_face(*a, *b),
{
    let forth: bool = contains_all(&a.nodes, &b.nodes);
    let back: bool = contains_all(&b.nodes, &a.nodes);
    if forth && back {
        assert(same_face(*a, *b));
    }
    if !forth {
        let ghost x = choose|x: u32| #[trigger] a.nodes@.contains(x) && !b.nodes@.contains(x);
        assert(a.nodes@.contains(x) && !b.nodes@.contains(x));
    }
    if !back {
        let ghost x = choose|x: u32| #[trigger] b.nodes@.contains(x) && !a.nodes@.contains(x);
        assert(a.nodes@.contains(x) != b.nodes@.contains(x));
    }
    forth && back
}

/// The least node of a face, by which faces are looked up.
spec fn least_of(nodes: Seq<u32>, node: u32) -> bool {
    nodes.contains(node) && forall|x: u32| #[trigger] nodes.contains(x) ==> node <= x
}

fn least_node(nodes: &Vec<u32>) -> (r: u32)
    requires
        nodes@.len() > 0,
    ensures
        least_of(nodes@, r),
{
    let mut r: u32 = nodes[0];
    let mut k: usize = 1;
    assert(nodes@.contains(nodes@[0]));
    while k < nodes.len()
        invariant
            1 <= k <= nodes@.len(),
            nodes@.contains(r),
            forall|m: int| 0 <= m < k ==> r <= #[trigger] nodes@[m],
        decreases nodes@.len() - k,
    {
        if nodes[k] < r {
            r = nodes[k];
            assert(nodes@.contains(nodes@[k as int]));
        }
        k += 1;
    }
    assert forall|x: u32| #[trigger] nodes@.contains(x) implies r <= x by {
        let m = choose|m: int| 0 <= m < nodes@.len() && nodes@[m] == x;
        assert(r <= nodes@[m]);
    }
    r
}

/// Every shell is listed under the least node of its face, in order.
spec fn tabulated(table: Lists, shells: Seq<ParsedShell>, upto: int) -> bool {
    &&& table.well_formed()
    &&& forall|x: u64, k: int| 0 <= k < table.at(x).len() ==> #[trigger] table.at(x)[k] < upto
    &&& forall|x: u64, k: int, l: int|
        0 <= k < l < table.at(x).len() ==> #[trigger] table.at(x)[k] < #[trigger] table.at(x)[l]
    &&& forall|j: int, node: u32|
        0 <= j < upto && #[trigger] least_of(shells[j].nodes@, node) ==> table.at(node as u64).contains(
            j as usize,
        )
}

#[verifier::loop_isolation(false)]
fn tabulate(shells: &Vec<ParsedShell>) -> (table: Lists)
    requires
        forall|k: int| 0 <= k < shells@.len() ==> (#[trigger] shells@[k]).nodes@.len() > 0,
    ensures
        tabulated(table, shells@, shells@.len() as int),
{
    let mut table = Lists::new();
    let mut k: usize = 0;
    while k < shells.len()
        invariant
            k <= shells@.len(),
            tabulated(table, shells@, k as int),
        decreases shells@.len() - k,
    {
        assert(shells@[k as int].nodes@.len() > 0);
        let node: u32 = least_node(&shells[k].nodes);
        let ghost before = table;
        table.push(node as u64, k);
        proof {
            assert forall|x: u64, i: int| 0 <= i < table.at(x).len() implies #[trigger] table.at(x)[i] < k + 1 by {
                if i < before.at(x).len() {
                    assert(before.at(x)[i] < k);
                }
            }
            assert forall|x: u64, i: int, l: int| 0 <= i < l < table.at(x).len() implies #[trigger] table.at(x)[i] < #[trigger] table.at(x)[l] by {
                assert(before.at(x)[i] < k);
                if l < before.at(x).len() {
                    assert(before.at(x)[i] < before.at(x)[l]);
                }
            }
            assert forall|j: int, other: u32| 0 <= j < k + 1 && #[trigger] least_of(shells@[j].nodes@, other) implies table.at(other as u64).contains(j as usize) by {
                if j < k {
                    assert(before.at(other as u64).contains(j as usize));
                    let slot = other as u64;
                    let i = choose|i: int| 0 <= i < before.at(slot).len() && #[trigger] before.at(slot)[i] == j as usize;
                    assert(table.at(slot)[i] == j as usize);
                } else {
                    assert(other == node) by {
                        assert(shells@[k as int].nodes@.contains(other));
                        assert(shells@[k as int].nodes@.contains(node));
                    }
                    let last = before.at(node as u64).len() as int;
                    assert(table.at(node as u64)[last] == k);
                }
            }
        }
        k += 1;
    }
    table
}

proof fn same_face_same_least(a: ParsedShell, b: ParsedShell, node: u32)
    requires
        same_face(a, b),
        least_of(a.nodes@, node),
    ensures
        least_of(b.nodes@, node),
{
    assert(a.nodes@.contains(node));
    assert(b.nodes@.contains(node));
    assert forall|x: u32| #[trigger] b.nodes@.contains(x) implies node <= x by {
        assert(a.nodes@.contains(x));
    }
}

/// What lies over the face of a shell, unless an earlier shell does already or
/// properties differ.
#[verifier::rlimit(40)]
#[verifier::loop_isolation(false)]
fn face_sources(shells: &Vec<ParsedShell>, table: &Lists, i: usize) -> (r: Option<Vec<u32>>)
    requires
        forall|k: int| 0 <= k < shells@.len() ==> (#[trigger] shells@[k]).nodes@.len() > 0,
        tabulated(*table, shells@, shells@.len() as int),
        i < shells@.len(),
    ensures
        match r {
            Some(ids) => first_face(shells@, i as int) && !conflicting(shells@, i as int) && ids@ == sources(
                shells@,
                i as int,
                shells@.len() as int,
            ),
            None => !first_face(shells@, i as int) || conflicting(shells@, i as int),
        },
{
    let own = &shells[i];
    let total: usize = shells.len();
    assert(shells@[i as int].nodes@.len() > 0);
    let node: u32 = least_node(&own.nodes);
    let list = table.get(node as u64);
    let mut r: Vec<u32> = Vec::new();
    let mut passed: Ghost<int> = Ghost(0);
    let mut k: usize = 0;
    while k < list.len()
        invariant
            k <= list@.len(),
            0 <= passed@ <= shells@.len(),
            k > 0 ==> passed@ == list@[k - 1] + 1,
            k == 0 ==> passed@ == 0,
            r@ == sources(shells@, i as int, passed@),
            forall|j: int| 0 <= j < passed@ && same_face(shells@[i as int], #[trigger] shells@[j]) ==> j >= i && shells@[j].stiff_id == own.stiff_id,
        decreases list@.len() - k,
    {
        let j: usize = list[k];
        assert(table.at(node as u64)[k as int] < shells@.len());
        proof {
            assert forall|m: int| passed@ <= m < j implies !same_face(shells@[i as int], #[trigger] shells@[m]) by {
                if same_face(shells@[i as int], shells@[m]) {
                    same_face_same_least(shells@[i as int], shells@[m], node);
                    assert(list@.contains(m as usize));
                    let e = choose|e: int| 0 <= e < list@.len() && list@[e] == m as usize;
                    if e < k {
                        if e < k - 1 {
                            assert(table.at(node as u64)[e] < table.at(node as u64)[k - 1]);
                        }
                    } else if e > k {
                        assert(table.at(node as u64)[k as int] < table.at(node as u64)[e]);
                    }
                }
            }
            if k > 0 {
                assert(table.at(node as u64)[k - 1] < table.at(node as u64)[k as int]);
            }
            sources_skip(shells@, i as int, passed@, j as int);
        }
        if is_same_face(own, &shells[j]) {
            if j < i {
                proof {
                    assert(same_face(shells@[j as int], shells@[i as int])) by {
                        assert forall|x: u32| #[trigger] shells@[j as int].nodes@.contains(x) <==> shells@[i as int].nodes@.contains(x) by {
                            assert(shells@[i as int].nodes@.contains(x) <==> shells@[j as int].nodes@.contains(x));
                        }
                    }
                    assert(!first_face(shells@, i as int));
                }
                return None;
            }
            if shells[j].stiff_id != own.stiff_id {
                assert(conflicting(shells@, i as int));
                return None;
            }
            r.push(shells[j].id);
        }
        proof {
            assert forall|m: int| 0 <= m < j + 1 && same_face(shells@[i as int], #[trigger] shells@[m]) implies m >= i && shells@[m].stiff_id == own.stiff_id by {
                if m < passed@ {
                } else if m < j {
                    assert(!same_face(shells@[i as int], shells@[m]));
                }
            }
            passed@ = j + 1;
        }
        k += 1;
    }
    proof {
        assert forall|m: int| passed@ <= m < total implies !same_face(shells@[i as int], #[trigger] shells@[m]) by {
            if same_face(shells@[i as int], shells@[m]) {
                same_face_same_least(shells@[i as int], shells@[m], node);
                assert(list@.contains(m as usize));
                let e = choose|e: int| 0 <= e < list@.len() && list@[e] == m as usize;
                if e < k - 1 {
                    assert(table.at(node as u64)[e] < table.at(node as u64)[k - 1]);
                }
            }
        }
        sources_skip(shells@, i as int, passed@, shells@.len() as int);
        assert(first_face(shells@, i as int)) by {
            assert forall|j: int| 0 <= j < i implies !same_face(#[trigger] shells@[j], shells@[i as int]) by {
                if same_face(shells@[j], shells@[i as int]) {
                    assert(same_face(shells@[i as int], shells@[j])) by {
                        assert forall|x: u32| #[trigger] shells@[i as int].nodes@.contains(x) <==> shells@[j].nodes@.contains(x) by {
                            assert(shells@[j].nodes@.contains(x) <==> shells@[i as int].nodes@.contains(x));
                        }
                    }
                }
            }
        }
        assert(!conflicting(shells@, i as int));
    }
    Some(r)
}

proof fn sources_skip(shells: Seq<ParsedShell>, i: int, from: int, to: int)
    requires
        0 <= from <= to,
        forall|m: int| from <= m < to ==> !same_face(shells[i], #[trigger] shells[m]),
    ensures
        sources(shells, i, to) == sources(shells, i, from),
    decreases to - from,
{
    if from < to {
        sources_skip(shells, i, from, to - 1);
        assert(!same_face(shells[i], shells[to - 1]));
    }
}

/// Faces over the same nodes are one face. Where their properties differ, the face
/// is left out.
#[verifier::loop_isolation(false)]
pub fn coalesce(shells: &Vec<ParsedShell>) -> (r: Vec<CoalescedFace>)
    requires
        forall|k: int| 0 <= k < shells@.len() ==> (#[trigger] shells@[k]).nodes@.len() > 0,
    ensures
        ({
            let kept = coalesced_upto(shells@, shells@.len() as int);
            &&& r@.len() == kept.len()
            &&& forall|k: int|
                0 <= k < r@.len() ==> (#[trigger] r@[k]).shell == kept[k] && r@[k].source_ids@ == sources(
                    shells@,
                    kept[k],
                    shells@.len() as int,
                )
        }),
{
    let table = tabulate(shells);
    let mut r: Vec<CoalescedFace> = Vec::new();
    let mut i: usize = 0;
    while i < shells.len()
        invariant
            i <= shells@.len(),
            r@.len() == coalesced_upto(shells@, i as int).len(),
            forall|k: int|
                0 <= k < r@.len() ==> (#[trigger] r@[k]).shell == coalesced_upto(shells@, i as int)[k] && r@[k].source_ids@ == sources(shells@, coalesced_upto(shells@, i as int)[k], shells@.len() as int),
        decreases shells@.len() - i,
    {
        match face_sources(shells, &table, i) {
            Some(source_ids) => {
                r.push(CoalescedFace { shell: i, source_ids });
            },
            None => {},
        }
        i += 1;
    }
    r
}

/// By what shells are ordered: height, distance to the middle, stiffness, place.
#[derive(Debug, Clone, Copy)]
pub struct ShellRank {
    pub height: Scalar,
    pub distance: Scalar,
    pub stiffness: u32,
    pub x: Scalar,
    pub y: Scalar,
}

pub open spec fn rank_keys(keys: Seq<Vec<i128>>, ranks: Seq<ShellRank>) -> bool {
    &&& keys.len() == 5
    &&& forall|d: int| 0 <= d < 5 ==> (#[trigger] keys[d])@.len() == ranks.len()
    &&& forall|k: int|
        0 <= k < ranks.len() ==> #[trigger] keys[0]@[k] == ranks[k].height.total_rank() && keys[1]@[k]
            == ranks[k].distance.total_rank() && keys[2]@[k] == ranks[k].stiffness && keys[3]@[k]
            == ranks[k].x.total_rank() && keys[4]@[k] == ranks[k].y.total_rank()
}

pub open spec fn by_rank(order: Seq<usize>, ranks: Seq<ShellRank>) -> bool {
    exists|keys: Seq<Vec<i128>>| #[trigger]
        rank_keys(keys, ranks) && ordered_by(keys, 0, ranks.len() as int, order)
}

/// Orders shells in a way that their numbers do not matter for.
#[verifier::loop_isolation(false)]
pub fn order_shells(ranks: &Vec<ShellRank>) -> (order: Vec<usize>)
    ensures
        by_rank(order@, ranks@),
{
    let mut heights: Vec<i128> = Vec::new();
    let mut distances: Vec<i128> = Vec::new();
    let mut stiffness: Vec<i128> = Vec::new();
    let mut xs: Vec<i128> = Vec::new();
    let mut ys: Vec<i128> = Vec::new();
    let mut k: usize = 0;
    while k < ranks.len()
        invariant
            k <= ranks@.len(),
            heights@.len() == k,
            distances@.len() == k,
            stiffness@.len() == k,
            xs@.len() == k,
            ys@.len() == k,
            forall|m: int|
                0 <= m < k ==> #[trigger] heights@[m] == ranks@[m].height.total_rank() && distances@[m] == ranks@[m].distance.total_rank() && stiffness@[m] == ranks@[m].stiffness && xs@[m] == ranks@[m].x.total_rank() && ys@[m] == ranks@[m].y.total_rank(),
        decreases ranks@.len() - k,
    {
        let rank = ranks[k];
        heights.push(rank.height.total_key() as i128);
        distances.push(rank.distance.total_key() as i128);
        stiffness.push(rank.stiffness as i128);
        xs.push(rank.x.total_key() as i128);
        ys.push(rank.y.total_key() as i128);
        k += 1;
    }
    let ghost listed = heights@;
    let mut keys: Vec<Vec<i128>> = Vec::new();
    keys.push(heights);
    keys.push(distances);
    keys.push(stiffness);
    keys.push(xs);
    keys.push(ys);
    assert(rank_keys(keys@, ranks@)) by {
        assert forall|m: int| 0 <= m < ranks@.len() implies #[trigger] keys@[0]@[m] == ranks@[m].height.total_rank() && keys@[1]@[m] == ranks@[m].distance.total_rank() && keys@[2]@[m] == ranks@[m].stiffness && keys@[3]@[m] == ranks@[m].x.total_rank() && keys@[4]@[m] == ranks@[m].y.total_rank() by {
            assert(listed[m] == ranks@[m].height.total_rank());
        }
    }
    sorted_by_keys(&keys, ranks.len())
}

/// How a shell lies.
#[derive(Debug, Clone, Copy, PartialEq, Eq, Structural)]
pub struct Orientation {
    pub horizontal: bool,
    pub vertical: bool,
}

pub open spec fn orientation_of(rise: Scalar, cosine: Scalar, sine: Scalar) -> Orientation {
    Orientation { horizontal: cosine.le(rise), vertical: rise.le(sine) }
}

/// The orientation by the vertical share of the normal.
pub fn classify_shell(rise: &Scalar, cosine: &Scalar, sine: &Scalar) -> (r: Orientation)
    ensures
        r == orientation_of(*rise, *cosine, *sine),
        r.horizontal == cosine.le(*rise),
        r.vertical == rise.le(*sine),
{
    Orientation { horizontal: cosine.at_most(rise), vertical: rise.at_most(sine) }
}

pub open spec fn type_of(orientation: Orientation) -> PanelType {
    if orientation.horizontal {
        PanelType::Slab
    } else if orientation.vertical {
        PanelType::Wall
    } else {
        PanelType::InclinedPanel
    }
}

pub fn panel_type(orientation: &Orientation) -> (r: PanelType)
    ensures
        r == type_of(*orientation),
        r == PanelType::Slab <==> orientation.horizontal,
        r == PanelType::Wall <==> orientation.vertical && !orientation.horizontal,
        r == PanelType::InclinedPanel <==> !orientation.vertical && !orientation.horizontal,
{
    if orientation.horizontal {
        PanelType::Slab
    } else if orientation.vertical {
        PanelType::Wall
    } else {
        PanelType::InclinedPanel
    }
}

/// How a shell fits the plane of a cluster.
#[derive(Debug, Clone, Copy)]
pub struct ClusterFit {
    /// All its nodes lie at the level of the cluster.
    pub level: bool,
    /// In plan it runs along the cluster and lies in its plane.
    pub upright: bool,
    /// Its normal is that of the cluster and it lies in its plane.
    pub sloped: bool,
}

pub open spec fn fits_cluster(shell: Orientation, cluster: Orientation, fit: ClusterFit) -> bool {
    if shell.horizontal && cluster.horizontal {
        fit.level
    } else if shell.vertical && cluster.vertical {
        fit.upright
    } else {
        !shell.horizontal && !shell.vertical && !cluster.horizontal && !cluster.vertical && fit.sloped
    }
}

/// Shells in one plane. The first one settles the plane.
#[derive(Debug)]
pub struct PlaneCluster {
    pub orientation: Orientation,
    pub members: Vec<usize>,
}

pub open spec fn first_fit(clusters: Seq<PlaneCluster>, shell: Orientation, fits: Seq<ClusterFit>, k: int) -> bool {
    &&& 0 <= k < clusters.len()
    &&& fits_cluster(shell, clusters[k].orientation, fits[k])
    &&& forall|m: int| 0 <= m < k ==> !fits_cluster(shell, (#[trigger] clusters[m]).orientation, fits[m])
}

pub open spec fn fits_none(clusters: Seq<PlaneCluster>, shell: Orientation, fits: Seq<ClusterFit>) -> bool {
    forall|m: int| 0 <= m < clusters.len() ==> !fits_cluster(shell, (#[trigger] clusters[m]).orientation, fits[m])
}

/// What a shell does to the clusters: it joins the first that it fits, or begins one.
pub open spec fn clustered(
    before: Seq<PlaneCluster>,
    after: Seq<PlaneCluster>,
    shell: usize,
    orientation: Orientation,
    fits: Seq<ClusterFit>,
    place: int,
) -> bool {
    if fits_none(before, orientation, fits) {
        &&& place == before.len()
        &&& after.len() == before.len() + 1
        &&& after.drop_last() == before
        &&& after.last().orientation == orientation
        &&& after.last().members@ == seq![shell]
    } else {
        &&& first_fit(before, orientation, fits, place)
        &&& after.len() == before.len()
        &&& after[place].orientation == before[place].orientation
        &&& after[place].members@ == before[place].members@.push(shell)
        &&& forall|m: int| 0 <= m < before.len() && m != place ==> (#[trigger] after[m]) == before[m]
    }
}

/// Puts a shell into a cluster.
pub fn place_shell(
    clusters: &mut Vec<PlaneCluster>,
    shell: usize,
    orientation: &Orientation,
    fits: &Vec<ClusterFit>,
) -> (r: usize)
    requires
        fits@.len() == old(clusters)@.len(),
    ensures
        clustered(old(clusters)@, final(clusters)@, shell, *orientation, fits@, r as int),
{
    let mut k: usize = 0;
    while k < clusters.len()
        invariant
            k <= clusters@.len(),
            clusters@ == old(clusters)@,
            fits@.len() == clusters@.len(),
            forall|m: int| 0 <= m < k ==> !fits_cluster(*orientation, (#[trigger] clusters@[m]).orientation, fits@[m]),
        decreases clusters@.len() - k,
    {
        let other = clusters[k].orientation;
        let fit = fits[k];
        let taken: bool = if orientation.horizontal && other.horizontal {
            fit.level
        } else if orientation.vertical && other.vertical {
            fit.upright
        } else {
            !orientation.horizontal && !orientation.vertical && !other.horizontal && !other.vertical && fit.sloped
        };
        if taken {
            assert(fits_cluster(*orientation, clusters@[k as int].orientation, fits@[k as int]));
            assert(!fits_none(old(clusters)@, *orientation, fits@));
            let mut cluster = clusters.remove(k);
            cluster.members.push(shell);
            clusters.insert(k, cluster);
            assert(first_fit(old(clusters)@, *orientation, fits@, k as int));
            return k;
        }
        k += 1;
    }
    let mut members: Vec<usize> = Vec::new();
    members.push(shell);
    assert(members@ =~= seq![shell]);
    clusters.push(PlaneCluster { orientation: *orientation, members });
    assert(clusters@.drop_last() =~= old(clusters)@);
    k
}

/// Two faces that meet along an edge of their own, with the same stiffness, where
/// nothing cuts.
pub open spec fn meet(faces: Seq<Face>, stiffness: Seq<u32>, cutting: Seq<Edge>) -> spec_fn(int, int) -> bool {
    |i: int, j: int|
        exists|edge: (u32, u32)| #[trigger]
            edge_owners(faces, edge) == seq![i as usize, j as usize] && 0 <= i < faces.len() && 0 <= j
                < faces.len() && stiffness[i] == stiffness[j] && !cutting.contains(node_edge(edge))
}

proof fn owners_known(faces: Seq<Face>, edge: (u32, u32), upto: int, k: int)
    requires
        0 <= upto <= faces.len(),
        0 <= k < crate::reconstruction::assembly::boundary::owners(faces, edge, upto).len(),
        faces.len() <= usize::MAX,
    ensures
        crate::reconstruction::assembly::boundary::owners(faces, edge, upto)[k] < upto,
    decreases upto,
{
    if upto > 0 {
        let rest = crate::reconstruction::assembly::boundary::owners(faces, edge, upto - 1);
        if k < rest.len() {
            owners_known(faces, edge, upto - 1, k);
        } else {
            let nodes = faces[upto - 1].nodes@;
            side_owner_is(nodes, edge, nodes.len() as int, (upto - 1) as usize, k - rest.len());
        }
    }
}

proof fn side_owner_is(nodes: Seq<u32>, edge: (u32, u32), upto: int, face: usize, k: int)
    requires
        0 <= k < crate::reconstruction::assembly::boundary::side_owners(nodes, edge, upto, face).len(),
    ensures
        crate::reconstruction::assembly::boundary::side_owners(nodes, edge, upto, face)[k] == face,
    decreases upto,
{
    if upto > 0 {
        let rest = crate::reconstruction::assembly::boundary::side_owners(nodes, edge, upto - 1, face);
        if k < rest.len() {
            side_owner_is(nodes, edge, upto - 1, face, k);
        }
    }
}

/// The faces that one panel is made of, as groups by their first face.
#[verifier::rlimit(60)]
#[verifier::loop_isolation(false)]
pub fn panel_faces(faces: &Vec<Face>, stiffness: &Vec<u32>, cutting: &Vec<Edge>) -> (groups: Vec<Vec<usize>>)
    requires
        stiffness@.len() == faces@.len(),
        edges_ascend(cutting@),
    ensures
        components_of(groups@, faces@.len() as int, meet(faces@, stiffness@, cutting@)),
{
    let table = edge_table(faces);
    let n: usize = faces.len();
    let mut pairs: Vec<(usize, usize)> = Vec::new();
    let mut k: usize = 0;
    while k < table.keys.len()
        invariant
            k <= table.keys@.len(),
            forall|p: int| 0 <= p < pairs@.len() ==> (#[trigger] pairs@[p]).0 < n && pairs@[p].1 < n && meet(faces@, stiffness@, cutting@)(pairs@[p].0 as int, pairs@[p].1 as int),
            forall|m: int| 0 <= m < k ==> edge_paired(faces@, stiffness@, cutting@, edge_of(#[trigger] table.keys@[m]), pairs@),
        decreases table.keys@.len() - k,
    {
        let value: i128 = table.keys[k];
        assert(0 <= table.keys@[k as int] <= u64::MAX);
        let ghost edge = edge_of(value);
        proof {
            assert(value / 0x1_0000_0000 <= u32::MAX && value % 0x1_0000_0000 <= u32::MAX) by (nonlinear_arith)
                requires
                    0 <= value <= 0xffff_ffff_ffff_ffff,
            ;
            assert(edge_number(edge) == value) by {
                let v = value as int;
                assert(v == (v / 0x1_0000_0000) * 0x1_0000_0000 + v % 0x1_0000_0000) by (nonlinear_arith);
                assert(0 <= v / 0x1_0000_0000 <= 0xffff_ffff) by (nonlinear_arith)
                    requires
                        0 <= v <= 0xffff_ffff_ffff_ffff,
                ;
            }
        }
        let a: u32 = (value / 0x1_0000_0000) as u32;
        let b: u32 = (value % 0x1_0000_0000) as u32;
        let list = table.owners.get(value as u64);
        assert(list@ == edge_owners(faces@, edge));
        let ghost before = pairs@;
        if list.len() == 2 {
            let i: usize = list[0];
            let j: usize = list[1];
            proof {
                owners_known(faces@, edge, faces@.len() as int, 0);
                owners_known(faces@, edge, faces@.len() as int, 1);
            }
            let own: Edge = key(a as usize, b as usize);
            assert(own == node_edge(edge));
            if stiffness[i] == stiffness[j] && !lists_edge(cutting, &own) {
                pairs.push((i, j));
                proof {
                    assert(pairs@[before.len() as int] == (i, j));
                    assert(edge_owners(faces@, edge) =~= seq![i, j]);
                    assert(meet(faces@, stiffness@, cutting@)(i as int, j as int));
                }
            }
        }
        proof {
            assert forall|p: int| 0 <= p < pairs@.len() implies (#[trigger] pairs@[p]).0 < n && pairs@[p].1 < n && meet(faces@, stiffness@, cutting@)(pairs@[p].0 as int, pairs@[p].1 as int) by {
                if p < before.len() {
                    assert(pairs@[p] == before[p]);
                }
            }
            assert forall|m: int| 0 <= m < k + 1 implies edge_paired(faces@, stiffness@, cutting@, edge_of(#[trigger] table.keys@[m]), pairs@) by {
                let other = edge_of(table.keys@[m]);
                let owned = edge_owners(faces@, other);
                if m < k {
                    assert(edge_paired(faces@, stiffness@, cutting@, other, before));
                    if pairs_edge(faces@, stiffness@, cutting@, other) {
                        let q = choose|q: int| 0 <= q < before.len() && before[q] == (owned[0], owned[1]);
                        assert(pairs@[q] == (owned[0], owned[1]));
                    }
                } else {
                    if pairs_edge(faces@, stiffness@, cutting@, other) {
                        assert(pairs@[before.len() as int] == (owned[0], owned[1]));
                    }
                }
            }
        }
        k += 1;
    }
    let groups = connected_groups(n, &pairs);
    proof {
        let local = pair_relation(pairs@);
        let whole = meet(faces@, stiffness@, cutting@);
        assert forall|x: int, y: int| local(x, y) implies #[trigger] whole(x, y) by {
            let p = choose|p: int| 0 <= p < pairs@.len() && #[trigger] pairs@[p] == (x as usize, y as usize) && pairs@[p].0 == x && pairs@[p].1 == y;
            assert(whole(pairs@[p].0 as int, pairs@[p].1 as int));
        }
        assert forall|x: int, y: int| whole(x, y) implies #[trigger] local(x, y) by {
            let edge = choose|edge: (u32, u32)| #[trigger]
                edge_owners(faces@, edge) == seq![x as usize, y as usize] && 0 <= x < faces@.len() && 0 <= y < faces@.len() && stiffness@[x] == stiffness@[y] && !cutting@.contains(node_edge(edge));
            assert(edge_uses(faces@, edge) > 0);
            assert(table.keys@.contains(edge_number(edge) as i128));
            let m = choose|m: int| 0 <= m < table.keys@.len() && table.keys@[m] == edge_number(edge) as i128;
            edge_of_number(edge);
            assert(edge_paired(faces@, stiffness@, cutting@, edge_of(table.keys@[m]), pairs@));
            assert(pairs_edge(faces@, stiffness@, cutting@, edge));
            let p = choose|p: int| 0 <= p < pairs@.len() && pairs@[p] == (x as usize, y as usize);
            assert(pairs@[p] == (x as usize, y as usize));
        }
        same_relation(groups@, n as int, local, whole);
    }
    groups
}

spec fn pairs_edge(faces: Seq<Face>, stiffness: Seq<u32>, cutting: Seq<Edge>, edge: (u32, u32)) -> bool {
    let owned = edge_owners(faces, edge);
    owned.len() == 2 && stiffness[owned[0] as int] == stiffness[owned[1] as int] && !cutting.contains(
        node_edge(edge),
    )
}

spec fn edge_paired(
    faces: Seq<Face>,
    stiffness: Seq<u32>,
    cutting: Seq<Edge>,
    edge: (u32, u32),
    pairs: Seq<(usize, usize)>,
) -> bool {
    let owned = edge_owners(faces, edge);
    pairs_edge(faces, stiffness, cutting, edge) ==> pairs.contains((owned[0], owned[1]))
}

/// Faces of different stiffness never meet in one panel along an edge.
pub proof fn stiffness_parts_panels(faces: Seq<Face>, stiffness: Seq<u32>, cutting: Seq<Edge>, i: int, j: int)
    requires
        stiffness[i] != stiffness[j],
    ensures
        !meet(faces, stiffness, cutting)(i, j),
{
}

/// What is measured of a contour in its plane.
#[derive(Debug, Clone, Copy)]
pub struct RingMeasure {
    pub points: usize,
    pub finite: bool,
    /// No side has the same start and end, and no two sides that are not neighbours
    /// meet.
    pub simple: bool,
    pub area: Scalar,
    /// It runs counterclockwise.
    pub positive: bool,
}

pub open spec fn proper_ring(ring: RingMeasure) -> bool {
    ring.points >= 3 && ring.finite && ring.simple && !ring.area.le(Scalar { bits: NO_AREA })
}

pub open spec fn all_proper(rings: Seq<RingMeasure>) -> bool {
    forall|k: int| 0 <= k < rings.len() ==> proper_ring(#[trigger] rings[k])
}

/// The last of the largest contours.
pub open spec fn outermost(rings: Seq<RingMeasure>, k: int) -> bool {
    &&& 0 <= k < rings.len()
    &&& forall|m: int| 0 <= m < rings.len() ==> (#[trigger] rings[m]).area.total_rank() <= rings[k].area.total_rank()
    &&& forall|m: int| k < m < rings.len() ==> (#[trigger] rings[m]).area.total_rank() < rings[k].area.total_rank()
}

/// The outer contour, where all are proper.
pub fn outer_ring(rings: &Vec<RingMeasure>) -> (r: Option<usize>)
    ensures
        match r {
            Some(k) => all_proper(rings@) && outermost(rings@, k as int),
            None => !all_proper(rings@) || rings@.len() == 0,
        },
{
    let mut k: usize = 0;
    while k < rings.len()
        invariant
            k <= rings@.len(),
            forall|m: int| 0 <= m < k ==> proper_ring(#[trigger] rings@[m]),
        decreases rings@.len() - k,
    {
        let ring = rings[k];
        if ring.points < 3 || !ring.finite || !ring.simple || ring.area.at_most(&Scalar { bits: NO_AREA }) {
            assert(!proper_ring(rings@[k as int]));
            return None;
        }
        k += 1;
    }
    if rings.len() == 0 {
        return None;
    }
    let mut best: usize = 0;
    let mut k: usize = 1;
    while k < rings.len()
        invariant
            best < k <= rings@.len(),
            forall|m: int| 0 <= m < k ==> (#[trigger] rings@[m]).area.total_rank() <= rings@[best as int].area.total_rank(),
            forall|m: int| best < m < k ==> (#[trigger] rings@[m]).area.total_rank() < rings@[best as int].area.total_rank(),
        decreases rings@.len() - k,
    {
        if rings[best].area.total_key() <= rings[k].area.total_key() {
            best = k;
        }
        k += 1;
    }
    Some(best)
}

/// Where a contour goes and whether it is turned round.
#[derive(Debug, Clone, Copy, PartialEq, Eq, Structural)]
pub struct RingPlace {
    pub ring: usize,
    pub reversed: bool,
}

/// The contour at a place after the outer one has changed places with the first.
pub open spec fn swapped(outer: usize, i: int) -> usize {
    if i == 0 {
        outer
    } else if i == outer {
        0
    } else {
        i as usize
    }
}

/// How contours lie to each other, by their new places.
#[derive(Debug)]
pub struct RingRelations {
    /// Strictly inside the outer contour.
    pub inside: Vec<bool>,
    /// Clear of the holes before it.
    pub clear: Vec<Vec<bool>>,
}

pub open spec fn holes_fit(relations: RingRelations, count: int) -> bool {
    forall|i: int| 1 <= i < count ==> #[trigger] hole_fits(relations, i)
}

pub open spec fn hole_fits(relations: RingRelations, i: int) -> bool {
    relations.inside@[i] && forall|j: int| 1 <= j < i ==> #[trigger] relations.clear@[i]@[j]
}

pub open spec fn arranged(rings: Seq<RingMeasure>, outer: usize, places: Seq<RingPlace>) -> bool {
    &&& places.len() == rings.len()
    &&& forall|i: int|
        0 <= i < places.len() ==> (#[trigger] places[i]).ring == swapped(outer, i) && places[i].reversed == (
        rings[swapped(outer, i) as int].positive != (i == 0))
}

/// Puts the outer contour first, running counterclockwise, and the holes after it,
/// running clockwise. Holes must lie inside and clear of each other.
#[verifier::loop_isolation(false)]
pub fn order_valid_rings(rings: &Vec<RingMeasure>, outer: usize, relations: &RingRelations) -> (r: Option<
    Vec<RingPlace>,
>)
    requires
        outer < rings@.len(),
        relations.inside@.len() == rings@.len(),
        relations.clear@.len() == rings@.len(),
        forall|i: int| 0 <= i < rings@.len() ==> (#[trigger] relations.clear@[i])@.len() >= i,
    ensures
        match r {
            Some(places) => holes_fit(*relations, rings@.len() as int) && arranged(rings@, outer, places@),
            None => !holes_fit(*relations, rings@.len() as int),
        },
{
    let mut i: usize = 1;
    while i < rings.len()
        invariant
            1 <= i,
            i <= rings@.len() || i == 1,
            forall|m: int| 1 <= m < i ==> #[trigger] hole_fits(*relations, m),
        decreases rings@.len() - i,
    {
        if !relations.inside[i] {
            assert(!hole_fits(*relations, i as int));
            return None;
        }
        let list = &relations.clear[i];
        assert(relations.clear@[i as int]@.len() >= i);
        let mut j: usize = 1;
        while j < i
            invariant
                1 <= j <= i,
                forall|m: int| 1 <= m < j ==> #[trigger] list@[m],
            decreases i - j,
        {
            if !list[j] {
                assert(!relations.clear@[i as int]@[j as int]);
                assert(!hole_fits(*relations, i as int));
                return None;
            }
            j += 1;
        }
        assert(hole_fits(*relations, i as int));
        i += 1;
    }
    let mut places: Vec<RingPlace> = Vec::new();
    let mut i: usize = 0;
    while i < rings.len()
        invariant
            i <= rings@.len(),
            places@.len() == i,
            forall|m: int|
                0 <= m < i ==> (#[trigger] places@[m]).ring == swapped(outer, m) && places@[m].reversed == (rings@[swapped(outer, m) as int].positive != (m == 0)),
        decreases rings@.len() - i,
    {
        let ring: usize = if i == 0 {
            outer
        } else if i == outer {
            0
        } else {
            i
        };
        let first: bool = i == 0;
        places.push(RingPlace { ring, reversed: rings[ring].positive != first });
        i += 1;
    }
    Some(places)
}

/// The contours that are wide enough; the outer one always stays.
pub open spec fn wide_rings(widths: Seq<Scalar>, tolerance: Scalar, upto: int) -> Seq<usize>
    decreases upto,
{
    if upto <= 0 {
        Seq::empty()
    } else if upto > 1 && widths[upto - 1].le(tolerance) {
        wide_rings(widths, tolerance, upto - 1)
    } else {
        wide_rings(widths, tolerance, upto - 1).push((upto - 1) as usize)
    }
}

/// Closes narrow openings. Width is that of the narrowest strip around an opening,
/// so that a small opening of ordinary proportions stays.
pub fn fill_sliver_holes(widths: &Vec<Scalar>, tolerance: &Scalar) -> (r: Vec<usize>)
    ensures
        r@ == wide_rings(widths@, *tolerance, widths@.len() as int),
{
    let mut r: Vec<usize> = Vec::new();
    let mut k: usize = 0;
    while k < widths.len()
        invariant
            k <= widths@.len(),
            r@ == wide_rings(widths@, *tolerance, k as int),
        decreases widths@.len() - k,
    {
        if !(k > 0 && widths[k].at_most(tolerance)) {
            r.push(k);
        }
        k += 1;
    }
    r
}

/// The outer contour is never closed.
pub proof fn outer_contour_stays(widths: Seq<Scalar>, tolerance: Scalar, upto: int)
    requires
        1 <= upto <= widths.len(),
    ensures
        wide_rings(widths, tolerance, upto).len() > 0,
        wide_rings(widths, tolerance, upto)[0] == 0,
    decreases upto,
{
    if upto > 1 {
        outer_contour_stays(widths, tolerance, upto - 1);
    } else {
        assert(wide_rings(widths, tolerance, 0).len() == 0);
    }
}

/// Whether a height begins a new level. `gap` is its distance to the last one.
pub fn is_new_level(gap: &Option<Scalar>, tolerance: &Scalar) -> (r: bool)
    ensures
        r == match gap {
            Some(distance) => tolerance.lt(*distance),
            None => true,
        },
{
    match gap {
        Some(distance) => tolerance.less(distance),
        None => true,
    }
}

/// What is measured of a point that a contour might do without.
#[derive(Debug, Clone, Copy)]
pub struct RemovalMeasure {
    /// Squared distance of its neighbours.
    pub chord: Scalar,
    /// Distance to the line between them.
    pub error: Scalar,
    /// The shorter of its two sides.
    pub side: Scalar,
    /// Without it every original point is still close to the contour.
    pub bounded: bool,
    /// Without it the contour is simple, if it was simple with it.
    pub simple: bool,
}

pub open spec fn removable(measure: RemovalMeasure, min_edge: Scalar, deviation: Scalar) -> bool {
    &&& !measure.chord.le(Scalar { bits: NO_CHORD })
    &&& measure.error.le(deviation)
    &&& measure.side.lt(min_edge) || measure.error.le(Scalar { bits: ON_LINE })
    &&& measure.bounded
    &&& measure.simple
}

/// A point may go only within a distance budget, where it makes a side short or lies
/// on the line, and a simple contour stays simple.
pub fn may_remove(measure: &RemovalMeasure, min_edge: &Scalar, deviation: &Scalar) -> (r: bool)
    ensures
        r == removable(*measure, *min_edge, *deviation),
{
    !measure.chord.at_most(&Scalar { bits: NO_CHORD }) && measure.error.at_most(deviation) && (measure.side.less(
        min_edge,
    ) || measure.error.at_most(&Scalar { bits: ON_LINE })) && measure.bounded && measure.simple
}

/// The points of a contour that are left, by their index.
#[derive(Debug)]
pub struct Contour {
    pub left: Vec<usize>,
}

/// A point is taken out of a contour, or the contour stays. Three points always stay.
pub open spec fn taken_out(
    before: Seq<usize>,
    after: Seq<usize>,
    i: int,
    measure: RemovalMeasure,
    min_edge: Scalar,
    deviation: Scalar,
) -> bool {
    after == if before.len() > 3 && removable(measure, min_edge, deviation) {
        before.remove(i)
    } else {
        before
    }
}

impl Contour {
    pub fn whole(count: usize) -> (r: Contour)
        ensures
            r.left@ == Seq::new(count as nat, |k: int| k as usize),
    {
        let mut left: Vec<usize> = Vec::new();
        let mut k: usize = 0;
        while k < count
            invariant
                k <= count,
                left@ == Seq::new(k as nat, |m: int| m as usize),
            decreases count - k,
        {
            left.push(k);
            k += 1;
        }
        Contour { left }
    }

    /// Takes a point out, where that is allowed.
    pub fn take_out(&mut self, i: usize, measure: &RemovalMeasure, min_edge: &Scalar, deviation: &Scalar) -> (r: bool)
        requires
            i < old(self).left@.len(),
        ensures
            r == (old(self).left@.len() > 3 && removable(*measure, *min_edge, *deviation)),
            taken_out(old(self).left@, final(self).left@, i as int, *measure, *min_edge, *deviation),
    {
        if self.left.len() > 3 && may_remove(measure, min_edge, deviation) {
            self.left.remove(i);
            true
        } else {
            false
        }
    }
}

/// A point is taken out of a contour as measured. `simple` and `close` say of the
/// points that are left whether the contour is simple and whether all points are close.
pub open spec fn thinning_step(
    before: Seq<usize>,
    after: Seq<usize>,
    i: int,
    measure: RemovalMeasure,
    min_edge: Scalar,
    deviation: Scalar,
    simple: spec_fn(Seq<usize>) -> bool,
    close: spec_fn(Seq<usize>) -> bool,
) -> bool {
    &&& 0 <= i < before.len()
    &&& taken_out(before, after, i, measure, min_edge, deviation)
    &&& measure.simple && simple(before) ==> simple(before.remove(i))
    &&& measure.bounded ==> close(before.remove(i))
}

/// Points taken out of a contour one after the other.
pub open spec fn thinned(
    states: Seq<Seq<usize>>,
    places: Seq<int>,
    measures: Seq<RemovalMeasure>,
    min_edge: Scalar,
    deviation: Scalar,
    simple: spec_fn(Seq<usize>) -> bool,
    close: spec_fn(Seq<usize>) -> bool,
) -> bool {
    &&& states.len() == measures.len() + 1
    &&& places.len() == measures.len()
    &&& forall|k: int|
        0 <= k < measures.len() ==> thinning_step(
            states[k],
            states[k + 1],
            places[k],
            #[trigger] measures[k],
            min_edge,
            deviation,
            simple,
            close,
        )
}

/// Thinning leaves some of the points in their order, three at least. A simple contour
/// stays simple, and one that all points are close to stays close to them.
pub proof fn thinned_contour_stays_simple(
    states: Seq<Seq<usize>>,
    places: Seq<int>,
    measures: Seq<RemovalMeasure>,
    min_edge: Scalar,
    deviation: Scalar,
    simple: spec_fn(Seq<usize>) -> bool,
    close: spec_fn(Seq<usize>) -> bool,
)
    requires
        thinned(states, places, measures, min_edge, deviation, simple, close),
        ascending_indices(states[0]),
        states[0].len() >= 3,
    ensures
        ascending_indices(states.last()),
        states.last().len() >= 3,
        forall|x: usize| states.last().contains(x) ==> states[0].contains(x),
        simple(states[0]) ==> simple(states.last()),
        close(states[0]) ==> close(states.last()),
    decreases measures.len(),
{
    let n = measures.len() as int;
    if n > 0 {
        let (s, p, m) = (states.drop_last(), places.drop_last(), measures.drop_last());
        assert forall|k: int| 0 <= k < m.len() implies thinning_step(s[k], s[k + 1], p[k], #[trigger] m[k], min_edge, deviation, simple, close) by {
            assert(m[k] == measures[k]);
        }
        thinned_contour_stays_simple(s, p, m, min_edge, deviation, simple, close);
        let before = states[n - 1];
        let after = states[n - 1 + 1];
        assert(s.last() == before);
        assert(thinning_step(before, after, places[n - 1], measures[n - 1], min_edge, deviation, simple, close));
        assert(states.last() == after);
        assert forall|x: usize| after.contains(x) implies before.contains(x) by {
            let j = choose|j: int| 0 <= j < after.len() && after[j] == x;
            assert(before[j] == x || before[j + 1] == x);
        }
    }
}

/// The elements of all faces of a panel.
pub open spec fn panel_sources(sources: Seq<Vec<u32>>, group: Seq<usize>, upto: int) -> Seq<u32>
    decreases upto,
{
    if upto <= 0 {
        Seq::empty()
    } else {
        panel_sources(sources, group, upto - 1) + sources[group[upto - 1] as int]@
    }
}

/// Collects the elements of a panel, ascending.
pub fn collect_sources(sources: &Vec<Vec<u32>>, group: &Vec<usize>) -> (r: Vec<u32>)
    requires
        forall|k: int| 0 <= k < group@.len() ==> #[trigger] group@[k] < sources@.len(),
    ensures
        in_order(r@, panel_sources(sources@, group@, group@.len() as int)),
{
    let mut all: Vec<u32> = Vec::new();
    let mut k: usize = 0;
    while k < group.len()
        invariant
            forall|m: int| 0 <= m < group@.len() ==> #[trigger] group@[m] < sources@.len(),
            k <= group@.len(),
            all@ == panel_sources(sources@, group@, k as int),
        decreases group@.len() - k,
    {
        append_ids(&mut all, &sources[group[k]]);
        k += 1;
    }
    sort_ids(&all)
}

/// What is measured of a panel: its plane and its contours.
#[derive(Debug)]
pub struct PanelShape {
    pub normal: Point,
    pub d: Scalar,
    pub contours: Vec<Vec<Point>>,
    pub filled_holes: usize,
    pub filled_hole_area: Scalar,
}

/// The panel that a group of faces makes. It has no number yet.
pub fn panel_of_group(
    panel_type: PanelType,
    stiffness: &Vec<u32>,
    sources: &Vec<Vec<u32>>,
    group: &Vec<usize>,
    shape: PanelShape,
) -> (r: MacroPanel)
    requires
        group@.len() > 0,
        stiffness@.len() == sources@.len(),
        forall|k: int| 0 <= k < group@.len() ==> #[trigger] group@[k] < sources@.len(),
    ensures
        r.id == 0,
        r.panel_type == panel_type,
        r.stiffness_id == stiffness@[group@[0] as int],
        r.plane_normal == shape.normal,
        r.plane_d == shape.d,
        r.polygons == shape.contours,
        r.filled_holes == shape.filled_holes,
        r.filled_hole_area == shape.filled_hole_area,
        r.fe_count == r.source_element_ids@.len(),
        in_order(r.source_element_ids@, panel_sources(sources@, group@, group@.len() as int)),
        r.connected_panel_ids@.len() == 0,
        r.constraint_points@.len() == 0,
{
    let first: usize = group[0];
    let source_element_ids = collect_sources(sources, group);
    MacroPanel {
        id: 0,
        panel_type,
        stiffness_id: stiffness[first],
        plane_normal: shape.normal,
        plane_d: shape.d,
        polygons: shape.contours,
        filled_holes: shape.filled_holes,
        filled_hole_area: shape.filled_hole_area,
        fe_count: source_element_ids.len(),
        source_element_ids,
        connected_panel_ids: Vec::new(),
        constraint_points: Vec::new(),
    }
}

/// Numbers panels from one.
pub fn number_panels(panels: &mut Vec<MacroPanel>)
    requires
        old(panels)@.len() <= u32::MAX,
    ensures
        final(panels)@.len() == old(panels)@.len(),
        forall|i: int|
            0 <= i < old(panels)@.len() ==> #[trigger] final(panels)@[i] == (MacroPanel {
                id: (i + 1) as u32,
                ..old(panels)@[i]
            }),
{
    let mut i: usize = 0;
    while i < panels.len()
        invariant
            i <= panels@.len(),
            panels@.len() == old(panels)@.len(),
            old(panels)@.len() <= u32::MAX,
            forall|m: int|
                0 <= m < panels@.len() ==> #[trigger] panels@[m] == if m < i {
                    MacroPanel { id: (m + 1) as u32, ..old(panels)@[m] }
                } else {
                    old(panels)@[m]
                },
        decreases panels@.len() - i,
    {
        panels[i].id = (i + 1) as u32;
        i += 1;
    }
}

/// The slope of a shell settles what its panel is: level ones are slabs, upright ones that
/// are not level are walls, and all others are inclined.
pub proof fn slope_settles_the_panel(rise: Scalar, cosine: Scalar, sine: Scalar)
    ensures
        type_of(orientation_of(rise, cosine, sine)) == PanelType::Slab <==> cosine.le(rise),
        type_of(orientation_of(rise, cosine, sine)) == PanelType::Wall <==> rise.le(sine) && !cosine.le(rise),
        type_of(orientation_of(rise, cosine, sine)) == PanelType::InclinedPanel <==> !rise.le(sine) && !cosine.le(rise),
{
}

/// A shell joins a cluster of its own type only, as long as no shell is both level and
/// upright. Level shells need a common level, upright ones a common line in plan, sloped
/// ones a common plane.
pub proof fn clusters_are_of_one_type(shell: Orientation, cluster: Orientation, fit: ClusterFit)
    requires
        !(shell.horizontal && shell.vertical),
        !(cluster.horizontal && cluster.vertical),
    ensures
        fits_cluster(shell, cluster, fit) ==> type_of(shell) == type_of(cluster),
        type_of(shell) == type_of(cluster) ==> (fits_cluster(shell, cluster, fit) <==> match type_of(shell) {
            PanelType::Slab => fit.level,
            PanelType::Wall => fit.upright,
            PanelType::InclinedPanel => fit.sloped,
        }),
{
}

/// Putting a shell into a cluster moves no other shell: every cluster keeps its members in
/// their places, and the shell stands at the end of the one it joined.
pub proof fn placed_shell_moves_no_other(
    before: Seq<PlaneCluster>,
    after: Seq<PlaneCluster>,
    shell: usize,
    orientation: Orientation,
    fits: Seq<ClusterFit>,
    place: int,
)
    requires
        clustered(before, after, shell, orientation, fits, place),
    ensures
        0 <= place < after.len(),
        after[place].members@.len() > 0,
        after[place].members@.last() == shell,
        before.len() <= after.len(),
        forall|m: int, k: int|
            0 <= m < before.len() && 0 <= k < before[m].members@.len() ==> k < (#[trigger] after[m]).members@.len()
                && after[m].members@[k] == #[trigger] before[m].members@[k],
        forall|m: int|
            0 <= m < before.len() ==> (#[trigger] after[m]).orientation == before[m].orientation && (m != place
                ==> after[m].members@ == before[m].members@),
        place < before.len() ==> after[place].members@.len() == before[place].members@.len() + 1,
        place == before.len() ==> after[place].members@.len() == 1 && after[place].orientation == orientation,
{
    if fits_none(before, orientation, fits) {
        assert forall|m: int| 0 <= m < before.len() implies after[m] == before[m] by {
            assert(after.drop_last()[m] == before[m]);
        }
    }
}

/// Which names a face has, and in which order: those of its nodes, each once, by its first
/// place.
pub proof fn face_names_are_those_of_its_nodes(nodes: Seq<u32>, names: Map<u32, u32>, upto: int)
    requires
        0 <= upto <= nodes.len(),
    ensures
        first_names(nodes, names, upto).no_duplicates(),
        forall|x: u32| #[trigger]
            first_names(nodes, names, upto).contains(x) <==> exists|k: int|
                0 <= k < upto && name_of(names, #[trigger] nodes[k]) == x,
        first_names(nodes, names, upto).len() <= upto,
        upto > 0 ==> first_names(nodes, names, upto).len() > 0 && first_names(nodes, names, upto)[0] == name_of(
            names,
            nodes[0],
        ),
    decreases upto,
{
    if upto > 0 {
        face_names_are_those_of_its_nodes(nodes, names, upto - 1);
        let rest = first_names(nodes, names, upto - 1);
        let all = first_names(nodes, names, upto);
        let name = name_of(names, nodes[upto - 1]);
        assert forall|x: u32| #[trigger] all.contains(x) <==> exists|k: int| 0 <= k < upto && name_of(names, #[trigger] nodes[k]) == x by {
            if all.contains(x) {
                if rest.contains(x) {
                    let k = choose|k: int| 0 <= k < upto - 1 && name_of(names, #[trigger] nodes[k]) == x;
                    assert(name_of(names, nodes[k]) == x);
                } else {
                    assert(x == name);
                    assert(name_of(names, nodes[upto - 1]) == x);
                }
            }
            if exists|k: int| 0 <= k < upto && name_of(names, #[trigger] nodes[k]) == x {
                let k = choose|k: int| 0 <= k < upto && name_of(names, #[trigger] nodes[k]) == x;
                if k < upto - 1 {
                    assert(rest.contains(x));
                    let m = choose|m: int| 0 <= m < rest.len() && rest[m] == x;
                    assert(all[m] == x);
                } else if !rest.contains(name) {
                    assert(all[rest.len() as int] == x);
                }
            }
        }
        if upto == 1 {
            assert(first_names(nodes, names, 0) == Seq::<u32>::empty());
        }
    }
}

/// Two shells lie over one face when they have the same set of nodes, whatever the order.
pub proof fn faces_are_sets_of_nodes(a: ParsedShell, b: ParsedShell)
    ensures
        same_face(a, b) <==> a.nodes@.to_set() == b.nodes@.to_set(),
{
    if same_face(a, b) {
        assert(a.nodes@.to_set() =~= b.nodes@.to_set());
    }
    if a.nodes@.to_set() == b.nodes@.to_set() {
        assert forall|x: u32| #[trigger] a.nodes@.contains(x) <==> b.nodes@.contains(x) by {
            assert(a.nodes@.to_set().contains(x) == b.nodes@.to_set().contains(x));
        }
    }
}

/// The elements of a face are those over it, and no others.
pub proof fn sources_are_what_lies_over_the_face(shells: Seq<ParsedShell>, i: int, upto: int, id: u32)
    requires
        0 <= upto <= shells.len(),
    ensures
        sources(shells, i, upto).contains(id) <==> exists|j: int|
            0 <= j < upto && same_face(shells[i], #[trigger] shells[j]) && shells[j].id == id,
    decreases upto,
{
    if upto > 0 {
        sources_are_what_lies_over_the_face(shells, i, upto - 1, id);
        let rest = sources(shells, i, upto - 1);
        let all = sources(shells, i, upto);
        if same_face(shells[i], shells[upto - 1]) {
            assert(all == rest.push(shells[upto - 1].id));
            assert(all.last() == shells[upto - 1].id);
            if rest.contains(id) {
                let m = choose|m: int| 0 <= m < rest.len() && rest[m] == id;
                assert(all[m] == id);
            }
            if all.contains(id) && !rest.contains(id) {
                let m = choose|m: int| 0 <= m < all.len() && all[m] == id;
                assert(m == rest.len());
            }
        }
    }
}

/// Every face is kept once, by its first shell, unless shells over it differ in stiffness.
pub proof fn faces_are_kept_once(shells: Seq<ParsedShell>, upto: int, i: int)
    requires
        0 <= upto <= shells.len(),
        0 <= i < upto,
    ensures
        coalesced_upto(shells, upto).contains(i) <==> {
            &&& forall|j: int| 0 <= j < i ==> !same_face(#[trigger] shells[j], shells[i])
            &&& forall|j: int|
                0 <= j < shells.len() && same_face(shells[i], #[trigger] shells[j]) ==> shells[j].stiff_id
                    == shells[i].stiff_id
        },
        coalesced_upto(shells, upto).no_duplicates(),
        forall|k: int| 0 <= k < coalesced_upto(shells, upto).len() ==> 0 <= #[trigger] coalesced_upto(shells, upto)[k] < upto,
    decreases upto,
{
    let all = coalesced_upto(shells, upto);
    let rest = coalesced_upto(shells, upto - 1);
    assert(forall|k: int| 0 <= k < rest.len() ==> 0 <= #[trigger] rest[k] < upto - 1) by {
        if upto > 1 {
            faces_are_kept_once(shells, upto - 1, 0);
        }
    }
    assert(rest.no_duplicates()) by {
        if upto > 1 {
            faces_are_kept_once(shells, upto - 1, 0);
        }
    }
    if i < upto - 1 {
        faces_are_kept_once(shells, upto - 1, i);
        if rest.contains(i) {
            let m = choose|m: int| 0 <= m < rest.len() && rest[m] == i;
            assert(all[m] == i);
        }
        if all.contains(i) {
            let m = choose|m: int| 0 <= m < all.len() && all[m] == i;
            assert(rest[m] == i);
        }
    } else {
        if first_face(shells, i) && !conflicting(shells, i) {
            assert(all.last() == i);
        } else if all.contains(i) {
            let m = choose|m: int| 0 <= m < all.len() && all[m] == i;
            assert(rest[m] == i);
        }
    }
}

/// Shells come by height; at one height by distance to the middle, then by stiffness, then
/// by place. Shells that agree in all of these keep their order.
pub proof fn shells_come_by_height_first(order: Seq<usize>, ranks: Seq<ShellRank>, i: int, j: int)
    requires
        by_rank(order, ranks),
        0 <= i < j < order.len(),
    ensures
        order.len() == ranks.len(),
        ({
            let a = ranks[order[i] as int];
            let b = ranks[order[j] as int];
            &&& a.height.total_rank() <= b.height.total_rank()
            &&& a.height == b.height ==> a.distance.total_rank() <= b.distance.total_rank()
            &&& a.height == b.height && a.distance == b.distance ==> a.stiffness <= b.stiffness
            &&& a.height == b.height && a.distance == b.distance && a.stiffness == b.stiffness
                ==> a.x.total_rank() <= b.x.total_rank()
            &&& a.height == b.height && a.distance == b.distance && a.stiffness == b.stiffness && a.x == b.x
                ==> a.y.total_rank() <= b.y.total_rank()
            &&& a == b ==> order[i] < order[j]
        }),
        order[i] != order[j],
{
    let keys = choose|keys: Seq<Vec<i128>>| #[trigger]
        rank_keys(keys, ranks) && ordered_by(keys, 0, ranks.len() as int, order);
    let (x, y) = (order[i], order[j]);
    assert(before_by(keys, 0, x, y));
    reveal_with_fuel(before_by, 7);
    assert(keys[0]@[x as int] == ranks[x as int].height.total_rank());
    assert(keys[0]@[y as int] == ranks[y as int].height.total_rank());
}

/// Every contour has one place. The outer one comes first and runs counterclockwise once it
/// is turned as told; the others run clockwise.
pub proof fn contours_run_alternately(rings: Seq<RingMeasure>, outer: usize, places: Seq<RingPlace>)
    requires
        outer < rings.len(),
        rings.len() <= usize::MAX,
        arranged(rings, outer, places),
    ensures
        places[0].ring == outer,
        forall|i: int, j: int| 0 <= i < j < places.len() ==> (#[trigger] places[i]).ring != (#[trigger] places[j]).ring,
        forall|i: int| 0 <= i < places.len() ==> (#[trigger] places[i]).ring < rings.len(),
        forall|i: int|
            0 <= i < places.len() ==> ((rings[(#[trigger] places[i]).ring as int].positive != places[i].reversed) <==> i == 0),
{
}

/// An opening is closed exactly when it is no wider than the tolerance; what stays keeps
/// its order.
pub proof fn narrow_openings_are_closed(widths: Seq<Scalar>, tolerance: Scalar, upto: int, k: usize)
    requires
        0 <= upto <= widths.len(),
        upto <= usize::MAX,
    ensures
        wide_rings(widths, tolerance, upto).contains(k) <==> k < upto && (k == 0 || !widths[k as int].le(tolerance)),
        ascending_indices(wide_rings(widths, tolerance, upto)),
        forall|m: int| 0 <= m < wide_rings(widths, tolerance, upto).len() ==> #[trigger] wide_rings(widths, tolerance, upto)[m] < upto,
    decreases upto,
{
    if upto > 0 {
        narrow_openings_are_closed(widths, tolerance, upto - 1, k);
        let rest = wide_rings(widths, tolerance, upto - 1);
        let all = wide_rings(widths, tolerance, upto);
        if rest.contains(k) {
            let m = choose|m: int| 0 <= m < rest.len() && rest[m] == k;
            assert(all[m] == k);
        }
        if all.contains(k) {
            let m = choose|m: int| 0 <= m < all.len() && all[m] == k;
            if m < rest.len() {
                assert(rest[m] == k);
            }
        }
        if all.len() > rest.len() {
            assert(all.last() == (upto - 1) as usize);
        }
    }
}

/// A point leaves a contour only within the budget, with all points still close and the
/// contour still simple. Within these it does leave where it makes a side short, or where it
/// lies on the line between its neighbours to a hundred-millionth.
pub proof fn removal_stays_within_the_budget(measure: RemovalMeasure, min_edge: Scalar, deviation: Scalar)
    ensures
        removable(measure, min_edge, deviation) ==> measure.error.le(deviation) && measure.bounded && measure.simple,
        removable(measure, min_edge, deviation) && !measure.side.lt(min_edge) ==> measure.error.le(
            Scalar { bits: 0x3e45_798e_e230_8c3a },
        ),
        measure.error.le(deviation) && measure.bounded && measure.simple && (Scalar { bits: 0x3bc7_9ca1_0c92_4223 }).lt(
            measure.chord,
        ) && (measure.side.lt(min_edge) || measure.error.le(Scalar { bits: 0x3e45_798e_e230_8c3a })) ==> removable(
            measure,
            min_edge,
            deviation,
        ),
{
}

/// A shell that a panel can be made of has three nodes, all placed, an area, and no node off
/// its plane by more than the tolerance; nothing else is asked of it.
pub proof fn usable_shells_are_flat(nodes: Seq<u32>, measure: ShellMeasure)
    ensures
        nodes.len() < 3 || !measure.placed || !measure.finite ==> !usable_shell(nodes, measure),
        measure.normal_length.lt(Scalar { bits: 0x3e7a_d7f2_9abc_af48 }) ==> !usable_shell(nodes, measure),
        forall|k: int|
            0 <= k < measure.deviations@.len() && measure.tolerance.lt(#[trigger] measure.deviations@[k])
                ==> !usable_shell(nodes, measure),
        nodes.len() >= 3 && measure.placed && measure.finite && (Scalar { bits: 0x3e7a_d7f2_9abc_af48 }).le(
            measure.normal_length,
        ) && (forall|k: int|
            0 <= k < measure.deviations@.len() ==> (#[trigger] measure.deviations@[k]).le(measure.tolerance))
            ==> usable_shell(nodes, measure),
{
}

/// A contour counts as proper only with three points or more and an area, finite and simple.
pub proof fn proper_contours_enclose(ring: RingMeasure)
    ensures
        proper_ring(ring) ==> ring.points >= 3 && ring.finite && ring.simple && !ring.area.le(
            Scalar { bits: 0x3d71_9799_812d_ea11 },
        ),
        ring.points >= 3 && ring.finite && ring.simple && (Scalar { bits: 0x3d71_9799_812d_ea11 }).lt(ring.area)
            ==> proper_ring(ring),
{
}

/// No contour is larger than the outer one, and there is one outer contour only.
pub proof fn outer_contour_is_the_largest(rings: Seq<RingMeasure>, k: int, m: int)
    requires
        outermost(rings, k),
        0 <= m < rings.len(),
    ensures
        rings[m].area.total_rank() <= rings[k].area.total_rank(),
        outermost(rings, m) ==> m == k,
{
    if outermost(rings, m) {
        assert(rings[k].area.total_rank() <= rings[m].area.total_rank());
        assert(rings[m].area.total_rank() <= rings[k].area.total_rank());
    }
}

/// A panel has an element exactly when one of its faces has it.
pub proof fn panel_elements_are_those_of_its_faces(sources: Seq<Vec<u32>>, group: Seq<usize>, upto: int, id: u32)
    requires
        0 <= upto <= group.len(),
    ensures
        panel_sources(sources, group, upto).contains(id) <==> exists|k: int|
            0 <= k < upto && sources[#[trigger] group[k] as int]@.contains(id),
    decreases upto,
{
    if upto > 0 {
        panel_elements_are_those_of_its_faces(sources, group, upto - 1, id);
        crate::shares::contains_either(panel_sources(sources, group, upto - 1), sources[group[upto - 1] as int]@, id);
        if sources[group[upto - 1] as int]@.contains(id) {
            assert(sources[group[upto - 1] as int]@.contains(id));
        }
    }
}

/// Holes fit exactly when each lies inside the exterior and clear of the holes before it.
pub proof fn holes_lie_inside_and_clear(relations: RingRelations, count: int)
    ensures
        holes_fit(relations, count) <==> (forall|i: int| 1 <= i < count ==> #[trigger] relations.inside@[i]) && (forall|i: int, j: int|
            1 <= j < i < count ==> #[trigger] relations.clear@[i]@[j]),
{
    if holes_fit(relations, count) {
        assert forall|i: int| 1 <= i < count implies #[trigger] relations.inside@[i] by {
            assert(hole_fits(relations, i));
        }
        assert forall|i: int, j: int| 1 <= j < i < count implies #[trigger] relations.clear@[i]@[j] by {
            assert(hole_fits(relations, i));
        }
    }
}

} // verus!
