//! Constructive spans, independent of source subdivision and property changes.
use vstd::prelude::*;
use crate::ordering::{ascending_indices, sorted_indices, stable_order};
use crate::reconstruction::frame::axis_uses;
use crate::reconstruction::planes::Patch;
use crate::reconstruction::recognize::{RecognizedAxis, SourceAnchor, SourceSpan};
use crate::registry::Lists;
use crate::scalar::Scalar;

verus! {

pub open spec fn owns(patches: Seq<Patch>, p: int, node: u32) -> bool {
    0 <= p < patches.len() && patches[p].source_nodes@.contains(node)
}

/// Another axis meets the axis at this node.
pub open spec fn joined_by_axis(axes: Seq<RecognizedAxis>, axis: int, node: u32) -> bool {
    exists|b: int| 0 <= b < axes.len() && b != axis && axis_uses(#[trigger] axes[b], node)
}

/// A support plane begins, ends or is crossed at this node; along a coplanar
/// connection only entry and exit count.
pub open spec fn joined_by_plane(
    patches: Seq<Patch>,
    transverse: Seq<bool>,
    before: u32,
    node: u32,
    after: u32,
) -> bool {
    exists|p: int| #[trigger]
        owns(patches, p, node) && (transverse[p] || !owns(patches, p, before) || !owns(
            patches,
            p,
            after,
        ))
}

/// The anchors of an axis in order of their parameters, given by `order`.
pub open spec fn ordered_node(anchors: Seq<SourceAnchor>, order: Seq<usize>, i: int) -> u32 {
    anchors[order[i] as int].node
}

pub open spec fn contact(
    axes: Seq<RecognizedAxis>,
    patches: Seq<Patch>,
    axis: int,
    transverse: Seq<bool>,
    order: Seq<usize>,
    i: int,
) -> bool {
    let anchors = axes[axis].anchors@;
    joined_by_axis(axes, axis, ordered_node(anchors, order, i)) || joined_by_plane(
        patches,
        transverse,
        ordered_node(anchors, order, i - 1),
        ordered_node(anchors, order, i),
        ordered_node(anchors, order, i + 1),
    )
}

pub open spec fn keys_of(keys: Seq<i128>, anchors: Seq<SourceAnchor>) -> bool {
    &&& keys.len() == anchors.len()
    &&& forall|k: int| 0 <= k < anchors.len() ==> #[trigger] keys[k] == anchors[k].t.total_rank()
}

/// `order` sorts the anchors by parameter, ties in source order.
pub open spec fn anchor_order(order: Seq<usize>, anchors: Seq<SourceAnchor>) -> bool {
    exists|keys: Seq<i128>| #[trigger] keys_of(keys, anchors) && stable_order(keys, order)
}

/// Both ends and every contact between them.
pub open spec fn cuts_of(
    cuts: Seq<usize>,
    axes: Seq<RecognizedAxis>,
    patches: Seq<Patch>,
    axis: int,
    transverse: Seq<bool>,
    order: Seq<usize>,
) -> bool {
    let last = axes[axis].anchors@.len() - 1;
    &&& ascending_indices(cuts)
    &&& forall|i: usize| #[trigger]
        cuts.contains(i) <==> i == 0 || i == last || (i < last && contact(
            axes,
            patches,
            axis,
            transverse,
            order,
            i as int,
        ))
}

/// Which axes and which patches a node belongs to.
#[derive(Debug)]
pub struct NodeOwners {
    axes: Lists,
    patches: Lists,
}

impl NodeOwners {
    pub closed spec fn describes(&self, axes: Seq<RecognizedAxis>, patches: Seq<Patch>) -> bool {
        &&& self.axes.well_formed()
        &&& self.patches.well_formed()
        &&& forall|node: u32, b: usize| #[trigger]
            self.axes.at(node as u64).contains(b) <==> b < axes.len() && axis_uses(
                axes[b as int],
                node,
            )
        &&& forall|node: u32, p: usize| #[trigger]
            self.patches.at(node as u64).contains(p) <==> owns(patches, p as int, node)
    }

    #[verifier::loop_isolation(false)]
    pub fn of(axes: &Vec<RecognizedAxis>, patches: &Vec<Patch>) -> (r: NodeOwners)
        ensures
            r.describes(axes@, patches@),
    {
        let mut by_axis = Lists::new();
        let mut a: usize = 0;
        while a < axes.len()
            invariant
                a <= axes.len(),
                by_axis.well_formed(),
                forall|node: u32, b: usize| #[trigger]
                    by_axis.at(node as u64).contains(b) <==> b < a && axis_uses(axes@[b as int], node),
            decreases axes.len() - a,
        {
            let mut k: usize = 0;
            while k < axes[a].anchors.len()
                invariant
                    k <= axes@[a as int].anchors@.len(),
                    by_axis.well_formed(),
                    forall|node: u32, b: usize| #[trigger]
                        by_axis.at(node as u64).contains(b) <==> (b < a && axis_uses(
                            axes@[b as int],
                            node,
                        )) || (b == a && exists|l: int|
                            0 <= l < k && (#[trigger] axes@[a as int].anchors@[l]).node == node),
                decreases axes@[a as int].anchors@.len() - k,
            {
                let node: u32 = axes[a].anchors[k].node;
                let ghost before = by_axis;
                by_axis.push(node as u64, a);
                proof {
                    assert forall|x: u32, b: usize| #[trigger] by_axis.at(x as u64).contains(b) <==> (b < a && axis_uses(
                            axes@[b as int],
                            x,
                        )) || (b == a && exists|l: int|
                            0 <= l < k + 1 && (#[trigger] axes@[a as int].anchors@[l]).node == x) by {
                        let now = by_axis.at(x as u64);
                        let was = before.at(x as u64);
                        if x == node {
                            assert(now == was.push(a));
                            if now.contains(b) {
                                let m = choose|m: int| 0 <= m < now.len() && now[m] == b;
                                if m < was.len() {
                                    assert(was[m] == b);
                                    assert(was.contains(b));
                                } else {
                                    assert(axes@[a as int].anchors@[k as int].node == x);
                                }
                            }
                            if was.contains(b) {
                                let m = choose|m: int| 0 <= m < was.len() && was[m] == b;
                                assert(now[m] == b);
                            }
                            assert(now[now.len() - 1] == a);
                        } else {
                            assert(now == was);
                            assert(was.contains(b) <==> now.contains(b));
                        }
                        if b == a && exists|l: int| 0 <= l < k + 1 && (#[trigger] axes@[a as int].anchors@[l]).node == x {
                            let l = choose|l: int| 0 <= l < k + 1 && (#[trigger] axes@[a as int].anchors@[l]).node == x;
                            if l < k {
                                assert(was.contains(b));
                            }
                        }
                    }
                }
                k += 1;
            }
            a += 1;
        }
        let mut by_patch = Lists::new();
        let mut p: usize = 0;
        while p < patches.len()
            invariant
                p <= patches.len(),
                by_patch.well_formed(),
                forall|node: u32, q: usize| #[trigger]
                    by_patch.at(node as u64).contains(q) <==> q < p && owns(patches@, q as int, node),
            decreases patches.len() - p,
        {
            let mut k: usize = 0;
            while k < patches[p].source_nodes.len()
                invariant
                    k <= patches@[p as int].source_nodes@.len(),
                    by_patch.well_formed(),
                    forall|node: u32, q: usize| #[trigger]
                        by_patch.at(node as u64).contains(q) <==> (q < p && owns(
                            patches@,
                            q as int,
                            node,
                        )) || (q == p && patches@[p as int].source_nodes@.take(k as int).contains(node)),
                decreases patches@[p as int].source_nodes@.len() - k,
            {
                let node: u32 = patches[p].source_nodes[k];
                let ghost before = by_patch;
                by_patch.push(node as u64, p);
                proof {
                    let list = patches@[p as int].source_nodes@;
                    assert(list.take(k + 1) =~= list.take(k as int).push(node));
                    assert forall|x: u32, q: usize| #[trigger] by_patch.at(x as u64).contains(q) <==> (q < p && owns(
                            patches@,
                            q as int,
                            x,
                        )) || (q == p && list.take(k + 1).contains(x)) by {
                        let now = by_patch.at(x as u64);
                        let was = before.at(x as u64);
                        assert(list.take(k + 1).contains(x) <==> list.take(k as int).contains(x) || x == node) by {
                            let short = list.take(k as int);
                            let long = list.take(k + 1);
                            if short.contains(x) {
                                let m = choose|m: int| 0 <= m < short.len() && short[m] == x;
                                assert(long[m] == x);
                            }
                            if long.contains(x) {
                                let m = choose|m: int| 0 <= m < long.len() && long[m] == x;
                                if m < k {
                                    assert(short[m] == x);
                                }
                            }
                            assert(long[k as int] == node);
                        }
                        if x == node {
                            assert(now == was.push(p));
                            if now.contains(q) {
                                let m = choose|m: int| 0 <= m < now.len() && now[m] == q;
                                if m < was.len() {
                                    assert(was[m] == q);
                                    assert(was.contains(q));
                                }
                            }
                            if was.contains(q) {
                                let m = choose|m: int| 0 <= m < was.len() && was[m] == q;
                                assert(now[m] == q);
                            }
                            assert(now[now.len() - 1] == p);
                        } else {
                            assert(was.contains(q) <==> now.contains(q));
                        }
                        if q < p && owns(patches@, q as int, x) {
                            assert(was.contains(q));
                        }
                    }
                }
                k += 1;
            }
            proof {
                let list = patches@[p as int].source_nodes@;
                assert(list.take(k as int) =~= list);
            }
            p += 1;
        }
        NodeOwners { axes: by_axis, patches: by_patch }
    }
}

#[verifier::loop_isolation(false)]
fn is_joined_by_axis(owners: &NodeOwners, axes: &Vec<RecognizedAxis>, patches: &Vec<Patch>, axis: usize, node: u32) -> (r: bool)
    requires
        owners.describes(axes@, patches@),
    ensures
        r == joined_by_axis(axes@, axis as int, node),
{
    let list = owners.axes.get(node as u64);
    let mut k: usize = 0;
    while k < list.len()
        invariant
            k <= list.len(),
            forall|m: int| 0 <= m < k ==> list@[m] == axis,
        decreases list.len() - k,
    {
        if list[k] != axis {
            let ghost b = list@[k as int];
            assert(owners.axes.at(node as u64).contains(b));
            assert(axis_uses(axes@[b as int], node));
            return true;
        }
        k += 1;
    }
    proof {
        if joined_by_axis(axes@, axis as int, node) {
            let b = choose|b: int| 0 <= b < axes@.len() && b != axis && axis_uses(#[trigger] axes@[b], node);
            assert(b < axes.len() <= usize::MAX);
            assert(owners.axes.at(node as u64).contains(b as usize));
            let m = choose|m: int| 0 <= m < list@.len() && list@[m] == b as usize;
            assert(list@[m] == axis);
        }
    }
    false
}

fn is_owner(owners: &NodeOwners, axes: &Vec<RecognizedAxis>, patches: &Vec<Patch>, p: usize, node: u32) -> (r: bool)
    requires
        owners.describes(axes@, patches@),
    ensures
        r == owns(patches@, p as int, node),
{
    let r = crate::ordering::lists_index(owners.patches.get(node as u64), p);
    assert(owners.patches.at(node as u64).contains(p) <==> owns(patches@, p as int, node));
    r
}

#[verifier::loop_isolation(false)]
fn is_joined_by_plane(
    owners: &NodeOwners,
    axes: &Vec<RecognizedAxis>,
    patches: &Vec<Patch>,
    transverse: &Vec<bool>,
    before: u32,
    node: u32,
    after: u32,
) -> (r: bool)
    requires
        owners.describes(axes@, patches@),
        transverse.len() == patches.len(),
    ensures
        r == joined_by_plane(patches@, transverse@, before, node, after),
{
    let list = owners.patches.get(node as u64);
    let mut k: usize = 0;
    while k < list.len()
        invariant
            k <= list.len(),
            forall|m: int|
                0 <= m < k ==> {
                    let p = #[trigger] list@[m] as int;
                    !transverse@[p] && owns(patches@, p, before) && owns(patches@, p, after)
                },
        decreases list.len() - k,
    {
        let p: usize = list[k];
        assert(owners.patches.at(node as u64).contains(p));
        assert(owns(patches@, p as int, node));
        if transverse[p] || !is_owner(owners, axes, patches, p, before) || !is_owner(
            owners,
            axes,
            patches,
            p,
            after,
        ) {
            return true;
        }
        k += 1;
    }
    proof {
        if joined_by_plane(patches@, transverse@, before, node, after) {
            let p = choose|p: int| #[trigger] owns(patches@, p, node) && (transverse@[p] || !owns(patches@, p, before) || !owns(patches@, p, after));
            assert(owners.patches.at(node as u64).contains(p as usize));
            let m = choose|m: int| 0 <= m < list@.len() && list@[m] == p as usize;
            assert(!transverse@[list@[m] as int]);
        }
    }
    false
}

/// Sorts the anchors of an axis and finds where it is to be cut. `transverse`
/// tells of each patch whether the axis crosses its plane at an angle.
#[verifier::loop_isolation(false)]
pub fn split(
    owners: &NodeOwners,
    axes: &Vec<RecognizedAxis>,
    patches: &Vec<Patch>,
    axis: usize,
    transverse: &Vec<bool>,
) -> (r: (Vec<usize>, Vec<usize>))
    requires
        owners.describes(axes@, patches@),
        axis < axes.len(),
        axes@[axis as int].anchors@.len() > 1,
        transverse.len() == patches.len(),
    ensures
        anchor_order(r.0@, axes@[axis as int].anchors@),
        cuts_of(r.1@, axes@, patches@, axis as int, transverse@, r.0@),
{
    let count: usize = axes[axis].anchors.len();
    let mut keys: Vec<i128> = Vec::new();
    let mut k: usize = 0;
    while k < count
        invariant
            k <= count,
            keys.len() == k,
            forall|m: int| 0 <= m < k ==> #[trigger] keys@[m] == axes@[axis as int].anchors@[m].t.total_rank(),
        decreases count - k,
    {
        keys.push(axes[axis].anchors[k].t.total_key() as i128);
        k += 1;
    }
    let order = sorted_indices(&keys);
    assert(keys_of(keys@, axes@[axis as int].anchors@));
    let ghost anchors = axes@[axis as int].anchors@;
    let mut cuts: Vec<usize> = Vec::new();
    cuts.push(0);
    assert(cuts@[0] == 0);
    let mut i: usize = 1;
    while i + 1 < count
        invariant
            1 <= i,
            i < count,
            ascending_indices(cuts@),
            forall|m: int| 0 <= m < cuts.len() ==> #[trigger] cuts@[m] < i,
            forall|x: usize| #[trigger] cuts@.contains(x) <==> x == 0 || (0 < x < i && contact(
                axes@,
                patches@,
                axis as int,
                transverse@,
                order@,
                x as int,
            )),
        decreases count - i,
    {
        let before: u32 = axes[axis].anchors[order[i - 1]].node;
        let node: u32 = axes[axis].anchors[order[i]].node;
        let after: u32 = axes[axis].anchors[order[i + 1]].node;
        let found: bool = is_joined_by_axis(owners, axes, patches, axis, node) || is_joined_by_plane(
            owners,
            axes,
            patches,
            transverse,
            before,
            node,
            after,
        );
        assert(found == contact(axes@, patches@, axis as int, transverse@, order@, i as int));
        let ghost known = cuts@;
        if found {
            cuts.push(i);
        }
        proof {
            assert forall|x: usize| #[trigger] cuts@.contains(x) <==> x == 0 || (0 < x < i + 1 && contact(
                axes@,
                patches@,
                axis as int,
                transverse@,
                order@,
                x as int,
            )) by {
                assert(known.contains(x) <==> x == 0 || (0 < x < i && contact(axes@, patches@, axis as int, transverse@, order@, x as int)));
                if known.contains(x) {
                    let m = choose|m: int| 0 <= m < known.len() && known[m] == x;
                    assert(cuts@[m] == x);
                }
                if cuts@.contains(x) {
                    let m = choose|m: int| 0 <= m < cuts@.len() && cuts@[m] == x;
                    if m < known.len() {
                        assert(known[m] == x);
                    }
                }
                if found {
                    assert(cuts@[cuts@.len() - 1] == i);
                }
            }
        }
        i += 1;
    }
    let ghost known = cuts@;
    cuts.push(count - 1);
    proof {
        assert forall|x: usize| #[trigger] cuts@.contains(x) <==> x == 0 || x == count - 1 || (x < count - 1 && contact(
            axes@,
            patches@,
            axis as int,
            transverse@,
            order@,
            x as int,
        )) by {
            assert(known.contains(x) <==> x == 0 || (0 < x < i && contact(axes@, patches@, axis as int, transverse@, order@, x as int)));
            if known.contains(x) {
                let m = choose|m: int| 0 <= m < known.len() && known[m] == x;
                assert(cuts@[m] == x);
            }
            if cuts@.contains(x) {
                let m = choose|m: int| 0 <= m < cuts@.len() && cuts@[m] == x;
                if m < known.len() {
                    assert(known[m] == x);
                }
            }
            assert(cuts@[cuts@.len() - 1] == count - 1);
        }
    }
    (order, cuts)
}

/// The spans of an axis that lie between two parameters, in source order.
pub open spec fn spans_between(spans: Seq<SourceSpan>, low: Scalar, high: Scalar) -> Seq<SourceSpan> {
    spans.filter(|span: SourceSpan| low.le(span.start_t) && span.end_t.le(high))
}

pub fn select_spans(spans: &Vec<SourceSpan>, low: &Scalar, high: &Scalar) -> (r: Vec<SourceSpan>)
    ensures
        r@ == spans_between(spans@, *low, *high),
{
    let mut r: Vec<SourceSpan> = Vec::new();
    let mut k: usize = 0;
    while k < spans.len()
        invariant
            k <= spans.len(),
            r@ == spans_between(spans@.take(k as int), *low, *high),
        decreases spans.len() - k,
    {
        let span = spans[k];
        proof {
            reveal(Seq::filter);
            assert(spans@.take(k + 1).drop_last() =~= spans@.take(k as int));
            assert(spans@.take(k + 1).last() == span);
        }
        if low.at_most(&span.start_t) && span.end_t.at_most(high) {
            r.push(span);
        }
        k += 1;
    }
    assert(spans@.take(k as int) =~= spans@);
    r
}

/// Along an axis the anchors do not go back.
pub proof fn anchors_run_along_the_axis(order: Seq<usize>, anchors: Seq<SourceAnchor>, i: int, j: int)
    requires
        anchor_order(order, anchors),
        0 <= i < j < order.len(),
    ensures
        order.len() == anchors.len(),
        order[i] != order[j],
        anchors[order[i] as int].t.total_rank() <= anchors[order[j] as int].t.total_rank(),
{
    let keys = choose|keys: Seq<i128>| #[trigger] keys_of(keys, anchors) && stable_order(keys, order);
    assert(crate::ordering::key_before(keys, order[i], order[j]));
    assert(keys[order[i] as int] == anchors[order[i] as int].t.total_rank());
    assert(keys[order[j] as int] == anchors[order[j] as int].t.total_rank());
}

/// Where another axis meets an inner anchor the axis is cut; where nothing meets it, it is not.
pub proof fn axes_are_cut_where_something_meets(
    cuts: Seq<usize>,
    axes: Seq<RecognizedAxis>,
    patches: Seq<Patch>,
    axis: int,
    transverse: Seq<bool>,
    order: Seq<usize>,
    i: usize,
)
    requires
        cuts_of(cuts, axes, patches, axis, transverse, order),
        0 < i < axes[axis].anchors@.len() - 1,
    ensures
        cuts.contains(0),
        cuts.contains((axes[axis].anchors@.len() - 1) as usize) || axes[axis].anchors@.len() - 1 > usize::MAX,
        (exists|b: int|
            0 <= b < axes.len() && b != axis && axis_uses(#[trigger] axes[b], axes[axis].anchors@[order[i as int] as int].node))
            ==> cuts.contains(i),
        (forall|b: int|
            0 <= b < axes.len() && b != axis ==> !axis_uses(#[trigger] axes[b], axes[axis].anchors@[order[i as int] as int].node)) && (
        forall|p: int|
            0 <= p < patches.len() ==> !(#[trigger] patches[p]).source_nodes@.contains(
                axes[axis].anchors@[order[i as int] as int].node,
            )) ==> !cuts.contains(i),
{
    let node = ordered_node(axes[axis].anchors@, order, i as int);
    if forall|p: int| 0 <= p < patches.len() ==> !(#[trigger] patches[p]).source_nodes@.contains(node) {
        assert forall|p: int| !#[trigger] owns(patches, p, node) by {}
    }
    if exists|b: int| 0 <= b < axes.len() && b != axis && axis_uses(#[trigger] axes[b], node) {
        assert(joined_by_axis(axes, axis, node));
        assert(contact(axes, patches, axis, transverse, order, i as int));
    }
}

/// A span is taken exactly when it lies between the two parameters, both included.
pub proof fn spans_lie_between(spans: Seq<SourceSpan>, low: Scalar, high: Scalar, span: SourceSpan)
    ensures
        spans_between(spans, low, high).contains(span) <==> spans.contains(span) && low.le(span.start_t) && span.end_t.le(high),
{
    let keep = |span: SourceSpan| low.le(span.start_t) && span.end_t.le(high);
    let kept = spans.filter(keep);
    if kept.contains(span) {
        let k = choose|k: int| 0 <= k < kept.len() && kept[k] == span;
        spans.lemma_filter_pred(keep, k);
        spans.lemma_filter_contains_rev(keep, span);
    }
    if spans.contains(span) && keep(span) {
        let k = choose|k: int| 0 <= k < spans.len() && spans[k] == span;
        spans.lemma_filter_contains(keep, k);
    }
}

/// An axis is cut at both its ends and, between them, exactly at its contacts.
pub proof fn axes_are_cut_at_ends_and_contacts(
    cuts: Seq<usize>,
    axes: Seq<RecognizedAxis>,
    patches: Seq<Patch>,
    axis: int,
    transverse: Seq<bool>,
    order: Seq<usize>,
    i: usize,
)
    requires
        cuts_of(cuts, axes, patches, axis, transverse, order),
        axes[axis].anchors@.len() >= 2,
        axes[axis].anchors@.len() <= usize::MAX,
    ensures
        cuts.contains(0),
        cuts.contains((axes[axis].anchors@.len() - 1) as usize),
        0 < i && i + 1 < axes[axis].anchors@.len() ==> (cuts.contains(i) <==> contact(axes, patches, axis, transverse, order, i as int)),
        i >= axes[axis].anchors@.len() ==> !cuts.contains(i),
        forall|a: int, b: int| 0 <= a < b < cuts.len() ==> cuts[a] < cuts[b],
{
}

} // verus!
