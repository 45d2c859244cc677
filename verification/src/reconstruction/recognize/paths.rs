//! What a report says of each chain of bars.
use vstd::prelude::*;
use crate::connectivity::{components_of, connected, connected_reflexive, in_some_group};
use crate::incidence::Incidence;
use crate::input::MeshData;
use crate::ordering::ascending_indices;
use crate::reconstruction::cover::{contiguous, contiguous_holds, contiguous_within, cover_intervals, cover_is_contiguous, cover_of, cut_list, holds_place, optimal_cuts, table_complete};
use crate::reconstruction::recognize::{accepts, axis_of, bar_of, build_axis, chain_of, chain_start, chain_walk, distinct_ids, element_ids, fits_chord, linked_bars, measure_complete, members_of, open_chain_is_covered, refusal, refusal_exists, refusal_of_some, refused, symmetric_links, usable, Bar, Chain, ChordMeasure, Policy, RecognizedAxis, RejectedElement, Report, SourceSpan, Survey};
use crate::scalar::Scalar;
use crate::shares::{contains_either, held, held_at, joined_has, joined_ids, list_shares, share_added, shared_out, shares_accumulate, shares_join};

verus! {

/// Every stretch of a path is measured: `stretches[i][k]` is that of bars `i` to
/// `i + k`, both included.
pub open spec fn stretches_complete(stretches: Seq<Vec<ChordMeasure>>, path: Seq<usize>, nodes: Seq<u32>) -> bool {
    &&& path.len() > 0
    &&& nodes.len() == path.len() + 1
    &&& stretches.len() == path.len()
    &&& forall|i: int| 0 <= i < path.len() ==> (#[trigger] stretches[i])@.len() == path.len() - i
    &&& forall|i: int, k: int|
        0 <= i < path.len() && 0 <= k < path.len() - i ==> measure_complete(
            #[trigger] stretches[i]@[k],
            path.subrange(i, i + k + 1),
            nodes.subrange(i, i + k + 2),
        )
}

/// Which stretches fit their chords.
pub open spec fn fit_table(valid: Seq<Vec<bool>>, policy: Policy, stretches: Seq<Vec<ChordMeasure>>) -> bool {
    &&& valid.len() == stretches.len()
    &&& table_complete(valid)
    &&& forall|i: int, j: int|
        0 <= i < j <= valid.len() ==> #[trigger] valid[i]@[j] == fits_chord(policy, stretches[i]@[j - i - 1])
}

/// The parts that a path falls into.
pub open spec fn parts_of(
    parts: Seq<(usize, usize)>,
    policy: Policy,
    stretches: Seq<Vec<ChordMeasure>>,
) -> bool {
    exists|valid: Seq<Vec<bool>>, cuts: Seq<usize>| #[trigger]
        fit_table(valid, policy, stretches) && #[trigger] cut_list(valid, cuts) && parts == cover_of(
            valid,
            cuts,
            cuts.len() - 1,
        )
}

/// The measure of a part.
pub open spec fn part_measure(stretches: Seq<Vec<ChordMeasure>>, part: (usize, usize)) -> ChordMeasure {
    stretches[part.0 as int]@[part.1 - part.0 - 1]
}

/// One axis for each part, in the order of the path.
pub open spec fn axes_of_parts(
    axes: Seq<RecognizedAxis>,
    parts: Seq<(usize, usize)>,
    policy: Policy,
    mesh: MeshData,
    bars: Seq<Bar>,
    path: Seq<usize>,
    nodes: Seq<u32>,
    stretches: Seq<Vec<ChordMeasure>>,
) -> bool {
    &&& axes.len() == parts.len()
    &&& forall|p: int|
        0 <= p < parts.len() ==> fits_chord(policy, part_measure(stretches, parts[p])) && axis_of(
            #[trigger] axes[p],
            mesh,
            bars,
            path.subrange(parts[p].0 as int, parts[p].1 as int),
            nodes.subrange(parts[p].0 as int, parts[p].1 + 1),
            part_measure(stretches, parts[p]),
        )
}

/// The axes that a path adds.
pub open spec fn path_axes(
    before: Seq<RecognizedAxis>,
    after: Seq<RecognizedAxis>,
    policy: Policy,
    mesh: MeshData,
    bars: Seq<Bar>,
    path: Seq<usize>,
    nodes: Seq<u32>,
    stretches: Seq<Vec<ChordMeasure>>,
) -> bool {
    exists|parts: Seq<(usize, usize)>, added: Seq<RecognizedAxis>| #[trigger]
        parts_of(parts, policy, stretches) && after == before + added && #[trigger] axes_of_parts(
            added,
            parts,
            policy,
            mesh,
            bars,
            path,
            nodes,
            stretches,
        )
}

/// One axis for each bar.
pub open spec fn axes_of_members(
    axes: Seq<RecognizedAxis>,
    policy: Policy,
    mesh: MeshData,
    bars: Seq<Bar>,
    members: Seq<usize>,
    measures: Seq<ChordMeasure>,
) -> bool {
    &&& axes.len() == members.len()
    &&& forall|k: int|
        0 <= k < members.len() ==> fits_chord(policy, measures[k]) && axis_of(
            #[trigger] axes[k],
            mesh,
            bars,
            seq![members[k]],
            bars[members[k] as int].ends@,
            measures[k],
        )
}

/// The axes that a closed ring of bars adds.
pub open spec fn ring_axes(
    before: Seq<RecognizedAxis>,
    after: Seq<RecognizedAxis>,
    policy: Policy,
    mesh: MeshData,
    bars: Seq<Bar>,
    members: Seq<usize>,
    measures: Seq<ChordMeasure>,
) -> bool {
    exists|added: Seq<RecognizedAxis>|
        after == before + added && #[trigger] axes_of_members(added, policy, mesh, bars, members, measures)
}

/// The source numbers of bars, in the order of `members`.
pub open spec fn source_ids(bars: Seq<Bar>, members: Seq<usize>) -> Seq<u32> {
    Seq::new(members.len(), |m: int| bars[members[m] as int].id)
}

/// The components that are not merged: a path counts where it does not fit one
/// chord as a whole.
pub open spec fn noted(before: Seq<Vec<u32>>, after: Seq<Vec<u32>>, ids: Seq<u32>, whole: bool) -> bool {
    if whole {
        after == before
    } else {
        after.len() == before.len() + 1 && after.drop_last() == before && after.last()@ == ids
    }
}

fn ids_of(bars: &Vec<Bar>, members: &Vec<usize>) -> (r: Vec<u32>)
    requires
        forall|m: int| 0 <= m < members.len() ==> #[trigger] members@[m] < bars.len(),
    ensures
        r@ == source_ids(bars@, members@),
{
    let mut r: Vec<u32> = Vec::new();
    let mut m: usize = 0;
    while m < members.len()
        invariant
            m <= members.len(),
            forall|k: int| 0 <= k < members.len() ==> #[trigger] members@[k] < bars.len(),
            r@ == source_ids(bars@, members@.take(m as int)),
        decreases members.len() - m,
    {
        assert(members@.take(m + 1).take(m as int) =~= members@.take(m as int));
        r.push(bars[members[m]].id);
        assert(r@ =~= source_ids(bars@, members@.take(m + 1)));
        m += 1;
    }
    assert(members@.take(m as int) =~= members@);
    r
}

fn stretch_of(path: &Vec<usize>, from: usize, to: usize) -> (r: Vec<usize>)
    requires
        from <= to <= path.len(),
    ensures
        r@ == path@.subrange(from as int, to as int),
{
    let mut r: Vec<usize> = Vec::new();
    let mut k: usize = from;
    while k < to
        invariant
            from <= k <= to <= path.len(),
            r@ == path@.subrange(from as int, k as int),
        decreases to - k,
    {
        r.push(path[k]);
        assert(r@ =~= path@.subrange(from as int, k + 1));
        k += 1;
    }
    r
}

fn nodes_between(nodes: &Vec<u32>, from: usize, to: usize) -> (r: Vec<u32>)
    requires
        from <= to <= nodes.len(),
    ensures
        r@ == nodes@.subrange(from as int, to as int),
{
    let mut r: Vec<u32> = Vec::new();
    let mut k: usize = from;
    while k < to
        invariant
            from <= k <= to <= nodes.len(),
            r@ == nodes@.subrange(from as int, k as int),
        decreases to - k,
    {
        r.push(nodes[k]);
        assert(r@ =~= nodes@.subrange(from as int, k + 1));
        k += 1;
    }
    r
}

#[verifier::loop_isolation(false)]
fn table_of(policy: &Policy, stretches: &Vec<Vec<ChordMeasure>>) -> (valid: Vec<Vec<bool>>)
    requires
        stretches.len() < usize::MAX,
        forall|i: int| 0 <= i < stretches.len() ==> (#[trigger] stretches@[i])@.len() == stretches.len() - i,
    ensures
        fit_table(valid@, *policy, stretches@),
{
    let n: usize = stretches.len();
    let mut valid: Vec<Vec<bool>> = Vec::new();
    while valid.len() < n
        invariant
            valid.len() <= n,
            forall|i: int| 0 <= i < valid.len() ==> (#[trigger] valid@[i])@.len() == n + 1,
            forall|i: int, j: int|
                0 <= i < valid.len() && i < j <= n ==> #[trigger] valid@[i]@[j] == fits_chord(
                    *policy,
                    stretches@[i]@[j - i - 1],
                ),
        decreases n - valid.len(),
    {
        let i: usize = valid.len();
        assert(stretches@[i as int]@.len() == n - i);
        let mut row: Vec<bool> = Vec::new();
        while row.len() < n + 1
            invariant
                row.len() <= n + 1,
                forall|j: int|
                    i < j < row.len() ==> #[trigger] row@[j] == fits_chord(
                        *policy,
                        stretches@[i as int]@[j - i - 1],
                    ),
            decreases n + 1 - row.len(),
        {
            let j: usize = row.len();
            if j > i {
                row.push(accepts(policy, &stretches[i][j - i - 1]));
            } else {
                row.push(false);
            }
        }
        valid.push(row);
    }
    valid
}

proof fn parts_within(parts: Seq<(usize, usize)>, policy: Policy, stretches: Seq<Vec<ChordMeasure>>)
    requires
        parts_of(parts, policy, stretches),
        stretches.len() < usize::MAX,
    ensures
        contiguous(parts, 0, stretches.len() as int),
        forall|p: int|
            0 <= p < parts.len() ==> (#[trigger] parts[p]).0 < parts[p].1 <= stretches.len(),
{
    let (valid, cuts) = choose|valid: Seq<Vec<bool>>, cuts: Seq<usize>| #[trigger]
        fit_table(valid, policy, stretches) && #[trigger] cut_list(valid, cuts) && parts == cover_of(
            valid,
            cuts,
            cuts.len() - 1,
        );
    cover_is_contiguous(valid, cuts, cuts.len() - 1);
    contiguous_within(parts, 0, stretches.len() as int);
}

/// The parts of a path hold each of its bars exactly once.
pub proof fn parts_hold_every_bar(
    parts: Seq<(usize, usize)>,
    policy: Policy,
    stretches: Seq<Vec<ChordMeasure>>,
    bar: int,
)
    requires
        parts_of(parts, policy, stretches),
        stretches.len() < usize::MAX,
        0 <= bar < stretches.len(),
    ensures
        exists|p: int| #[trigger] holds_place(parts, p, bar),
        forall|p: int, q: int| #[trigger]
            holds_place(parts, p, bar) && #[trigger] holds_place(parts, q, bar) ==> p == q,
{
    parts_within(parts, policy, stretches);
    contiguous_holds(parts, 0, stretches.len() as int, bar);
}

/// The elements of each axis.
pub open spec fn axis_lists(axes: Seq<RecognizedAxis>) -> Seq<Seq<u32>> {
    axes.map_values(|axis: RecognizedAxis| axis.spans@.map_values(|span: SourceSpan| span.element))
}

pub open spec fn rejected_ids(rejected: Seq<RejectedElement>) -> Seq<u32> {
    rejected.map_values(|entry: RejectedElement| entry.element)
}

/// Every list of a report that names elements: those of the axes, the rejected ones and
/// those that are no bars.
pub open spec fn report_lists(report: Report) -> Seq<Seq<u32>> {
    axis_lists(report.axes@) + seq![rejected_ids(report.rejected@)] + seq![report.non_bar_elements@]
}

/// A report before any chain.
pub open spec fn started(report: Report, policy: Policy, survey: Survey) -> bool {
    &&& report.policy == policy
    &&& report.axes@.len() == 0
    &&& report.unmerged_components@.len() == 0
    &&& report.rejected == survey.rejected
    &&& report.non_bar_elements == survey.non_bar_elements
}

/// A chain was taken into a report: as a closed ring where it has no path.
pub open spec fn chain_taken(
    before: Report,
    after: Report,
    mesh: MeshData,
    bars: Seq<Bar>,
    chain: Chain,
    stretches: Seq<Vec<ChordMeasure>>,
    measures: Seq<ChordMeasure>,
) -> bool {
    &&& after.policy == before.policy
    &&& after.rejected == before.rejected
    &&& after.non_bar_elements == before.non_bar_elements
    &&& if chain.path@.len() == 0 {
        ring_axes(before.axes@, after.axes@, before.policy, mesh, bars, chain.members@, measures)
    } else {
        stretches_complete(stretches, chain.path@, chain.nodes@) && path_axes(
            before.axes@,
            after.axes@,
            before.policy,
            mesh,
            bars,
            chain.path@,
            chain.nodes@,
            stretches,
        )
    }
}

spec fn bars_sorted(bars: Seq<Bar>) -> bool {
    forall|b: int, c: int| 0 <= b < c < bars.len() ==> (#[trigger] bars[b]).id < (#[trigger] bars[c]).id
}

proof fn same_bar(bars: Seq<Bar>, a: int, b: int)
    requires
        bars_sorted(bars),
        0 <= a < bars.len(),
        0 <= b < bars.len(),
        bars[a].id == bars[b].id,
    ensures
        a == b,
{
    if a < b {
        assert(bars[a].id < bars[b].id);
    } else if b < a {
        assert(bars[b].id < bars[a].id);
    }
}

proof fn path_shares(
    added: Seq<RecognizedAxis>,
    parts: Seq<(usize, usize)>,
    policy: Policy,
    mesh: MeshData,
    bars: Seq<Bar>,
    path: Seq<usize>,
    nodes: Seq<u32>,
    stretches: Seq<Vec<ChordMeasure>>,
)
    requires
        bars_sorted(bars),
        path.no_duplicates(),
        path.len() < usize::MAX,
        forall|k: int| 0 <= k < path.len() ==> #[trigger] path[k] < bars.len(),
        stretches_complete(stretches, path, nodes),
        parts_of(parts, policy, stretches),
        axes_of_parts(added, parts, policy, mesh, bars, path, nodes, stretches),
    ensures
        shared_out(axis_lists(added), source_ids(bars, path)),
{
    let lists = axis_lists(added);
    let ids = source_ids(bars, path);
    parts_within(parts, policy, stretches);
    assert forall|p: int, k: int| 0 <= p < parts.len() && 0 <= k < parts[p].1 - parts[p].0 implies k < lists[p].len() && #[trigger] lists[p][k] == ids[parts[p].0 + k] by {
        let some = path.subrange(parts[p].0 as int, parts[p].1 as int);
        assert(axis_of(added[p], mesh, bars, some, nodes.subrange(parts[p].0 as int, parts[p].1 + 1), part_measure(stretches, parts[p])));
        assert(added[p].spans@[k].element == bars[some[k] as int].id);
    }
    assert forall|p: int| 0 <= p < parts.len() implies (#[trigger] lists[p]).len() == parts[p].1 - parts[p].0 by {
        let some = path.subrange(parts[p].0 as int, parts[p].1 as int);
        assert(axis_of(added[p], mesh, bars, some, nodes.subrange(parts[p].0 as int, parts[p].1 + 1), part_measure(stretches, parts[p])));
    }
    assert forall|id: u32| #[trigger] held(lists, id) <==> ids.contains(id) by {
        if held(lists, id) {
            let (p, k) = choose|p: int, k: int| #[trigger] held_at(lists, id, p, k);
            assert(lists[p].len() == parts[p].1 - parts[p].0);
            assert(lists[p][k] == ids[parts[p].0 + k]);
        }
        if ids.contains(id) {
            let at = choose|at: int| 0 <= at < ids.len() && ids[at] == id;
            parts_hold_every_bar(parts, policy, stretches, at);
            let p = choose|p: int| #[trigger] holds_place(parts, p, at);
            assert(lists[p][at - parts[p].0] == id);
            assert(held_at(lists, id, p, at - parts[p].0));
        }
    }
    assert forall|id: u32, p: int, k: int, q: int, l: int| #[trigger] held_at(lists, id, p, k) && #[trigger] held_at(lists, id, q, l) implies p == q && k == l by {
        assert(lists[p].len() == parts[p].1 - parts[p].0 && lists[q].len() == parts[q].1 - parts[q].0);
        let (a, b) = (parts[p].0 + k, parts[q].0 + l);
        assert(lists[p][k] == ids[a] && lists[q][l] == ids[b]);
        assert(path[a] < bars.len() && path[b] < bars.len());
        same_bar(bars, path[a] as int, path[b] as int);
        assert(a == b);
        parts_hold_every_bar(parts, policy, stretches, a);
        assert(holds_place(parts, p, a) && holds_place(parts, q, a));
    }
}

proof fn ring_shares(
    added: Seq<RecognizedAxis>,
    policy: Policy,
    mesh: MeshData,
    bars: Seq<Bar>,
    members: Seq<usize>,
    measures: Seq<ChordMeasure>,
)
    requires
        bars_sorted(bars),
        ascending_indices(members),
        forall|k: int| 0 <= k < members.len() ==> #[trigger] members[k] < bars.len(),
        axes_of_members(added, policy, mesh, bars, members, measures),
    ensures
        shared_out(axis_lists(added), source_ids(bars, members)),
{
    let lists = axis_lists(added);
    let ids = source_ids(bars, members);
    assert forall|m: int| 0 <= m < members.len() implies (#[trigger] lists[m]) == seq![ids[m]] by {
        assert(axis_of(added[m], mesh, bars, seq![members[m]], bars[members[m] as int].ends@, measures[m]));
        assert(added[m].spans@[0].element == bars[seq![members[m]][0] as int].id);
        assert(lists[m] =~= seq![ids[m]]);
    }
    assert forall|id: u32| #[trigger] held(lists, id) <==> ids.contains(id) by {
        if held(lists, id) {
            let (p, k) = choose|p: int, k: int| #[trigger] held_at(lists, id, p, k);
            assert(ids[p] == id);
        }
        if ids.contains(id) {
            let m = choose|m: int| 0 <= m < ids.len() && ids[m] == id;
            assert(lists[m][0] == id);
            assert(held_at(lists, id, m, 0));
        }
    }
    assert forall|id: u32, p: int, k: int, q: int, l: int| #[trigger] held_at(lists, id, p, k) && #[trigger] held_at(lists, id, q, l) implies p == q && k == l by {
        assert(ids[p] == id && ids[q] == id);
        assert(members[p] < bars.len() && members[q] < bars.len());
        same_bar(bars, members[p] as int, members[q] as int);
        if p < q {
            assert(members[p] < members[q]);
        } else if q < p {
            assert(members[q] < members[p]);
        }
    }
}

/// Each chain shares out its bars among the axes that it adds.
proof fn chain_shares(
    before: Report,
    after: Report,
    mesh: MeshData,
    bars: Seq<Bar>,
    links: Seq<Option<usize>>,
    chains: Seq<Chain>,
    c: int,
    stretches: Seq<Vec<ChordMeasure>>,
    measures: Seq<ChordMeasure>,
)
    requires
        bars_sorted(bars),
        links.len() == 2 * bars.len(),
        2 * bars.len() < usize::MAX,
        symmetric_links(links),
        components_of(members_of(chains), bars.len() as int, linked_bars(links)),
        0 <= c < chains.len(),
        chain_of(chains[c], links, bars, mesh),
        chain_taken(before, after, mesh, bars, chains[c], stretches, measures),
    ensures
        share_added(axis_lists(before.axes@), axis_lists(after.axes@), source_ids(bars, chains[c].members@)),
{
    let chain = chains[c];
    let groups = members_of(chains);
    let members = chain.members@;
    let n = bars.len() as int;
    let rel = linked_bars(links);
    assert(groups[c]@ == members);
    assert(members.len() > 0 && ascending_indices(members));
    assert forall|k: int| 0 <= k < members.len() implies #[trigger] members[k] < n by {
        assert(groups[c]@[k] < n);
    }
    if chain.path@.len() == 0 {
        let added = choose|added: Seq<RecognizedAxis>|
            after.axes@ == before.axes@ + added && #[trigger] axes_of_members(added, before.policy, mesh, bars, members, measures);
        ring_shares(added, before.policy, mesh, bars, members, measures);
        assert(axis_lists(after.axes@) =~= axis_lists(before.axes@) + axis_lists(added));
    } else {
        let path = chain.path@;
        let start = choose|start: int| #[trigger] chain_start(links, bars, mesh, members, start) && chain_walk(links, bars, start, path, chain.nodes@);
        let first = (start / 2) as usize;
        let k0 = choose|k: int| 0 <= k < members.len() && members[k] == first;
        assert forall|x: usize| #[trigger] members.contains(x) <==> x < n && connected(n, rel, start / 2, x as int) by {
            if members.contains(x) {
                let k = choose|k: int| 0 <= k < members.len() && members[k] == x;
                assert(connected(n, rel, groups[c]@[k0] as int, groups[c]@[k] as int));
            }
            if x < n && connected(n, rel, start / 2, x as int) {
                assert(in_some_group(groups, x as int));
                let (g, k) = choose|g: int, k: int| 0 <= g < groups.len() && 0 <= k < groups[g]@.len() && #[trigger] groups[g]@[k] == x as int;
                assert(connected(n, rel, groups[c]@[k0] as int, groups[g]@[k] as int));
                assert(members[k] == x);
            }
        }
        open_chain_is_covered(links, n, start, path, members);
        assert forall|k: int| 0 <= k < path.len() implies #[trigger] path[k] < bars.len() by {
            assert(path.contains(path[k]));
            assert(members.contains(path[k]));
        }
        path_fits(path, bars.len() as int);
        let (parts, added) = choose|parts: Seq<(usize, usize)>, added: Seq<RecognizedAxis>| #[trigger]
            parts_of(parts, before.policy, stretches) && after.axes@ == before.axes@ + added && #[trigger] axes_of_parts(added, parts, before.policy, mesh, bars, path, chain.nodes@, stretches);
        path_shares(added, parts, before.policy, mesh, bars, path, chain.nodes@, stretches);
        assert(axis_lists(after.axes@) =~= axis_lists(before.axes@) + axis_lists(added));
        let own = source_ids(bars, members);
        let walked_ids = source_ids(bars, path);
        assert forall|id: u32| #[trigger] held(axis_lists(added), id) <==> own.contains(id) by {
            assert(held(axis_lists(added), id) <==> walked_ids.contains(id));
            if walked_ids.contains(id) {
                let k = choose|k: int| 0 <= k < walked_ids.len() && walked_ids[k] == id;
                assert(path.contains(path[k]));
                let m = choose|m: int| 0 <= m < members.len() && members[m] == path[k];
                assert(own[m] == id);
            }
            if own.contains(id) {
                let m = choose|m: int| 0 <= m < own.len() && own[m] == id;
                assert(members.contains(members[m]));
                let k = choose|k: int| 0 <= k < path.len() && path[k] == members[m];
                assert(walked_ids[k] == id);
            }
        }
        assert(shared_out(axis_lists(added), own));
    }
}

proof fn path_fits(path: Seq<usize>, n: int)
    requires
        path.no_duplicates(),
        forall|k: int| 0 <= k < path.len() ==> #[trigger] path[k] < n,
        0 <= n <= usize::MAX,
    ensures
        path.len() <= n,
{
    let places = path.map_values(|x: usize| x as int);
    assert(places.no_duplicates());
    places.unique_seq_to_set();
    let all = vstd::set_lib::set_int_range(0, n);
    vstd::set_lib::lemma_int_range(0, n);
    assert(places.to_set().subset_of(all)) by {
        assert forall|x: int| places.to_set().contains(x) implies all.contains(x) by {
            let k = choose|k: int| 0 <= k < places.len() && places[k] == x;
            assert(path[k] < n);
        }
    }
    vstd::set_lib::lemma_len_subset(places.to_set(), all);
}

/// Every element of a scheme stands in exactly one place of a finished report: in one
/// axis, among the rejected elements or among those that are no bars.
pub proof fn every_element_has_one_place(
    mesh: MeshData,
    policy: Policy,
    lengths: Seq<Scalar>,
    survey: Survey,
    links: Seq<Option<usize>>,
    chains: Seq<Chain>,
    stretches: Seq<Seq<Vec<ChordMeasure>>>,
    measures: Seq<Seq<ChordMeasure>>,
    reports: Seq<Report>,
)
    requires
        distinct_ids(mesh.elements@),
        survey.sorts(mesh, policy, lengths),
        links.len() == 2 * survey.bars@.len(),
        2 * survey.bars@.len() < usize::MAX,
        symmetric_links(links),
        components_of(members_of(chains), survey.bars@.len() as int, linked_bars(links)),
        reports.len() == chains.len() + 1,
        started(reports[0], policy, survey),
        forall|c: int| 0 <= c < chains.len() ==> chain_of(#[trigger] chains[c], links, survey.bars@, mesh),
        forall|c: int|
            0 <= c < chains.len() ==> chain_taken(
                reports[c],
                reports[c + 1],
                mesh,
                survey.bars@,
                #[trigger] chains[c],
                stretches[c],
                measures[c],
            ),
    ensures
        shared_out(report_lists(reports.last()), element_ids(mesh.elements@)),
{
    let bars = survey.bars@;
    let n = chains.len() as int;
    let rel = linked_bars(links);
    let groups = members_of(chains);
    let states = Seq::new(reports.len(), |c: int| axis_lists(reports[c].axes@));
    let shares = Seq::new(chains.len(), |c: int| source_ids(bars, chains[c].members@));
    report_keeps(reports, survey, mesh, chains, stretches, measures, n);
    assert forall|c: int| 0 <= c < shares.len() implies share_added(states[c], states[c + 1], #[trigger] shares[c]) by {
        assert(chain_of(chains[c], links, bars, mesh));
        chain_shares(reports[c], reports[c + 1], mesh, bars, links, chains, c, stretches[c], measures[c]);
    }
    assert forall|g: int, h: int, id: u32| 0 <= g < h < shares.len() implies !(#[trigger] shares[g].contains(id) && #[trigger] shares[h].contains(id)) by {
        if shares[g].contains(id) && shares[h].contains(id) {
            let k = choose|k: int| 0 <= k < shares[g].len() && shares[g][k] == id;
            let l = choose|l: int| 0 <= l < shares[h].len() && shares[h][l] == id;
            assert(groups[g]@[k] < bars.len() && groups[h]@[l] < bars.len());
            same_bar(bars, groups[g]@[k] as int, groups[h]@[l] as int);
            connected_reflexive(bars.len() as int, rel, groups[g]@[k] as int);
            assert(connected(bars.len() as int, rel, groups[g]@[k] as int, groups[h]@[l] as int));
        }
    }
    shares_accumulate(states, shares, n);
    let report = reports.last();
    let axial = joined_ids(shares, n);
    let rejected = rejected_ids(report.rejected@);
    let aside = report.non_bar_elements@;
    let elements = mesh.elements@;
    let ids = element_ids(elements);
    assert forall|d: int, e: int| 0 <= d < elements.len() && 0 <= e < elements.len() && (#[trigger] elements[d]).id == (#[trigger] elements[e]).id implies d == e by {
        if d < e {
            assert(elements[d].id != elements[e].id);
        } else if e < d {
            assert(elements[e].id != elements[d].id);
        }
    }
    assert forall|id: u32| #[trigger] axial.contains(id) <==> exists|e: int| 0 <= e < elements.len() && (#[trigger] elements[e]).id == id && usable(mesh, policy, elements[e], lengths[e]) by {
        joined_has(shares, n, id);
        if axial.contains(id) {
            let g = choose|g: int| 0 <= g < n && (#[trigger] shares[g]).contains(id);
            let k = choose|k: int| 0 <= k < shares[g].len() && shares[g][k] == id;
            assert(groups[g]@[k] < bars.len());
            assert(bar_of(bars[groups[g]@[k] as int], elements));
            assert(elements[bars[groups[g]@[k] as int].element as int].id == id);
        }
        if exists|e: int| 0 <= e < elements.len() && (#[trigger] elements[e]).id == id && usable(mesh, policy, elements[e], lengths[e]) {
            let e = choose|e: int| 0 <= e < elements.len() && (#[trigger] elements[e]).id == id && usable(mesh, policy, elements[e], lengths[e]);
            let b = choose|b: int| 0 <= b < bars.len() && (#[trigger] bars[b]).element == e;
            assert(bar_of(bars[b], elements));
            assert(in_some_group(groups, b));
            let (g, k) = choose|g: int, k: int| 0 <= g < groups.len() && 0 <= k < groups[g]@.len() && #[trigger] groups[g]@[k] == b;
            assert(shares[g][k] == id);
            assert(shares[g].contains(id));
        }
    }
    assert forall|id: u32| #[trigger] rejected.contains(id) <==> exists|e: int| 0 <= e < elements.len() && (#[trigger] elements[e]).id == id && refused(mesh, policy, lengths, e) by {
        if rejected.contains(id) {
            let k = choose|k: int| 0 <= k < rejected.len() && rejected[k] == id;
            assert(refusal_of_some(report.rejected@[k], mesh, policy, lengths));
            let e = choose|e: int| 0 <= e < elements.len() && #[trigger] refusal(report.rejected@[k], mesh, policy, lengths, e);
            assert(elements[e].id == id && refused(mesh, policy, lengths, e));
        }
        if exists|e: int| 0 <= e < elements.len() && (#[trigger] elements[e]).id == id && refused(mesh, policy, lengths, e) {
            let e = choose|e: int| 0 <= e < elements.len() && (#[trigger] elements[e]).id == id && refused(mesh, policy, lengths, e);
            assert(refusal_exists(report.rejected@, mesh, policy, lengths, e));
            let k = choose|k: int| 0 <= k < report.rejected@.len() && refusal(#[trigger] report.rejected@[k], mesh, policy, lengths, e);
            assert(rejected[k] == id);
        }
    }
    assert forall|i: int, j: int| 0 <= i < rejected.len() && 0 <= j < rejected.len() && i != j implies rejected[i] != rejected[j] by {
        if i < j {
            assert(report.rejected@[i].element < report.rejected@[j].element);
        } else {
            assert(report.rejected@[j].element < report.rejected@[i].element);
        }
    }
    list_shares(rejected);
    list_shares(aside);
    shares_join(axis_lists(report.axes@), axial, seq![rejected], rejected);
    assert forall|id: u32| !((axial + rejected).contains(id) && #[trigger] aside.contains(id)) by {
        contains_either(axial, rejected, id);
    }
    shares_join(axis_lists(report.axes@) + seq![rejected], axial + rejected, seq![aside], aside);
    assert forall|id: u32| #[trigger] held(report_lists(report), id) <==> ids.contains(id) by {
        contains_either(axial, rejected, id);
        contains_either(axial + rejected, aside, id);
        assert(held(report_lists(report), id) <==> (axial + rejected + aside).contains(id));
        if ids.contains(id) {
            let e = choose|e: int| 0 <= e < ids.len() && ids[e] == id;
            assert(elements[e].id == id);
            assert(!elements[e].bar() || refused(mesh, policy, lengths, e) || usable(mesh, policy, elements[e], lengths[e]));
        }
        if axial.contains(id) {
            let e = choose|e: int| 0 <= e < elements.len() && (#[trigger] elements[e]).id == id && usable(mesh, policy, elements[e], lengths[e]);
            assert(ids[e] == id);
        }
        if rejected.contains(id) {
            let e = choose|e: int| 0 <= e < elements.len() && (#[trigger] elements[e]).id == id && refused(mesh, policy, lengths, e);
            assert(ids[e] == id);
        }
        if aside.contains(id) {
            let e = choose|e: int| 0 <= e < elements.len() && (#[trigger] elements[e]).id == id && !elements[e].bar();
            assert(ids[e] == id);
        }
    }
}

proof fn report_keeps(
    reports: Seq<Report>,
    survey: Survey,
    mesh: MeshData,
    chains: Seq<Chain>,
    stretches: Seq<Seq<Vec<ChordMeasure>>>,
    measures: Seq<Seq<ChordMeasure>>,
    upto: int,
)
    requires
        0 <= upto <= chains.len(),
        reports.len() == chains.len() + 1,
        reports[0].rejected == survey.rejected,
        reports[0].non_bar_elements == survey.non_bar_elements,
        forall|c: int|
            0 <= c < chains.len() ==> chain_taken(
                reports[c],
                reports[c + 1],
                mesh,
                survey.bars@,
                #[trigger] chains[c],
                stretches[c],
                measures[c],
            ),
    ensures
        reports[upto].rejected == survey.rejected,
        reports[upto].non_bar_elements == survey.non_bar_elements,
    decreases upto,
{
    if upto > 0 {
        report_keeps(reports, survey, mesh, chains, stretches, measures, upto - 1);
        let c = upto - 1;
        assert(chain_taken(reports[c], reports[c + 1], mesh, survey.bars@, chains[c], stretches[c], measures[c]));
    }
}

impl Report {
    /// A report on what was sorted out, before any chain.
    pub fn start(policy: &Policy, survey: Survey) -> (r: (Report, Vec<Bar>))
        ensures
            started(r.0, *policy, survey),
            r.1 == survey.bars,
    {
        (
            Report {
                policy: *policy,
                axes: Vec::new(),
                rejected: survey.rejected,
                unmerged_components: Vec::new(),
                non_bar_elements: survey.non_bar_elements,
            },
            survey.bars,
        )
    }

    /// Takes a path that has two ends: as one axis where it fits one chord, else
    /// as one axis for each of its parts.
    #[verifier::loop_isolation(false)]
    pub fn take_path(
        &mut self,
        mesh: &MeshData,
        incidence: &Incidence,
        bars: &Vec<Bar>,
        members: &Vec<usize>,
        path: &Vec<usize>,
        nodes: &Vec<u32>,
        stretches: &Vec<Vec<ChordMeasure>>,
    ) -> (r: Result<(), &'static str>)
        requires
            stretches_complete(stretches@, path@, nodes@),
            2 * path.len() < usize::MAX - 2,
            incidence.describes(mesh.elements@),
            forall|k: int| 0 <= k < path.len() ==> #[trigger] path@[k] < bars.len(),
            forall|k: int| 0 <= k < members.len() ==> #[trigger] members@[k] < bars.len(),
        ensures
            final(self).policy == old(self).policy,
            final(self).rejected == old(self).rejected,
            final(self).non_bar_elements == old(self).non_bar_elements,
            noted(
                old(self).unmerged_components@,
                final(self).unmerged_components@,
                source_ids(bars@, members@),
                fits_chord(old(self).policy, stretches@[0]@[path.len() - 1]),
            ),
            match r {
                Ok(()) => path_axes(
                    old(self).axes@,
                    final(self).axes@,
                    old(self).policy,
                    *mesh,
                    bars@,
                    path@,
                    nodes@,
                    stretches@,
                ),
                Err(reason) => {
                    &&& reason@ == "failed to retain valid source bar"@
                    &&& exists|parts: Seq<(usize, usize)>, p: int|
                        parts_of(parts, old(self).policy, stretches@) && 0 <= p < parts.len() && !fits_chord(
                            old(self).policy,
                            part_measure(stretches@, #[trigger] parts[p]),
                        )
                },
            },
    {
        let valid = table_of(&self.policy, stretches);
        let cuts = optimal_cuts(&valid);
        let parts = cover_intervals(&valid, &cuts);
        let ghost policy = self.policy;
        proof {
            assert(fit_table(valid@, policy, stretches@) && cut_list(valid@, cuts@));
            assert(parts_of(parts@, policy, stretches@));
            parts_within(parts@, policy, stretches@);
        }
        let n: usize = path.len();
        assert(valid@[0]@[n as int] == fits_chord(policy, stretches@[0]@[n - 1]));
        if !valid[0][n] {
            let ids = ids_of(bars, members);
            self.unmerged_components.push(ids);
            assert(self.unmerged_components@.drop_last() =~= old(self).unmerged_components@);
        }
        let ghost noted_list = self.unmerged_components@;
        let ghost before = self.axes@;
        let mut p: usize = 0;
        while p < parts.len()
            invariant
                p <= parts.len(),
                self.policy == policy,
                self.rejected == old(self).rejected,
                self.non_bar_elements == old(self).non_bar_elements,
                self.unmerged_components@ == noted_list,
                self.axes@.len() == before.len() + p,
                self.axes@.take(before.len() as int) == before,
                forall|q: int|
                    0 <= q < p ==> fits_chord(policy, part_measure(stretches@, #[trigger] parts@[q])),
                forall|q: int|
                    0 <= q < p ==> axis_of(
                        #[trigger] self.axes@[before.len() + q],
                        *mesh,
                        bars@,
                        path@.subrange(parts@[q].0 as int, parts@[q].1 as int),
                        nodes@.subrange(parts@[q].0 as int, parts@[q].1 + 1),
                        part_measure(stretches@, parts@[q]),
                    ),
            decreases parts.len() - p,
        {
            let (i, j) = parts[p];
            assert(parts@[p as int].0 < parts@[p as int].1 <= stretches.len());
            assert(stretches@[i as int]@.len() == path.len() - i);
            let some = stretch_of(path, i, j);
            let passed = nodes_between(nodes, i, j + 1);
            proof {
                let k = j - i - 1;
                assert(measure_complete(
                    stretches@[i as int]@[k],
                    path@.subrange(i as int, i + k + 1),
                    nodes@.subrange(i as int, i + k + 2),
                ));
                assert(i + k + 1 == j && i + k + 2 == j + 1);
            }
            match build_axis(&self.policy, mesh, incidence, bars, &some, &passed, &stretches[i][j - i - 1]) {
                Some(axis) => {
                    let ghost earlier = self.axes@;
                    self.axes.push(axis);
                    assert(self.axes@.take(before.len() as int) =~= earlier.take(before.len() as int));
                },
                None => {
                    assert(!fits_chord(policy, part_measure(stretches@, parts@[p as int])));
                    return Err("failed to retain valid source bar");
                },
            }
            p += 1;
        }
        proof {
            let added = self.axes@.skip(before.len() as int);
            assert forall|q: int| 0 <= q < parts.len() implies fits_chord(policy, part_measure(stretches@, parts@[q])) && axis_of(
                #[trigger] added[q],
                *mesh,
                bars@,
                path@.subrange(parts@[q].0 as int, parts@[q].1 as int),
                nodes@.subrange(parts@[q].0 as int, parts@[q].1 + 1),
                part_measure(stretches@, parts@[q]),
            ) by {
                assert(added[q] == self.axes@[before.len() + q]);
            }
            assert(axes_of_parts(added, parts@, policy, *mesh, bars@, path@, nodes@, stretches@));
            assert(self.axes@ =~= before + added);
        }
        Ok(())
    }

    /// Takes a closed ring of bars: each bar is an axis of its own.
    #[verifier::loop_isolation(false)]
    pub fn take_ring(
        &mut self,
        mesh: &MeshData,
        incidence: &Incidence,
        bars: &Vec<Bar>,
        members: &Vec<usize>,
        measures: &Vec<ChordMeasure>,
    ) -> (r: Result<(), &'static str>)
        requires
            measures.len() == members.len(),
            incidence.describes(mesh.elements@),
            forall|k: int| 0 <= k < members.len() ==> #[trigger] members@[k] < bars.len(),
            forall|k: int|
                0 <= k < members.len() ==> measure_complete(
                    #[trigger] measures@[k],
                    seq![members@[k]],
                    bars@[members@[k] as int].ends@,
                ),
        ensures
            final(self).policy == old(self).policy,
            final(self).rejected == old(self).rejected,
            final(self).non_bar_elements == old(self).non_bar_elements,
            noted(
                old(self).unmerged_components@,
                final(self).unmerged_components@,
                source_ids(bars@, members@),
                false,
            ),
            match r {
                Ok(()) => ring_axes(
                    old(self).axes@,
                    final(self).axes@,
                    old(self).policy,
                    *mesh,
                    bars@,
                    members@,
                    measures@,
                ),
                Err(reason) => {
                    &&& reason@ == "failed to retain valid source bar"@
                    &&& exists|k: int|
                        0 <= k < members.len() && !fits_chord(old(self).policy, #[trigger] measures@[k])
                },
            },
    {
        let ids = ids_of(bars, members);
        self.unmerged_components.push(ids);
        assert(self.unmerged_components@.drop_last() =~= old(self).unmerged_components@);
        let ghost noted_list = self.unmerged_components@;
        let ghost policy = self.policy;
        let ghost before = self.axes@;
        let mut k: usize = 0;
        while k < members.len()
            invariant
                k <= members.len(),
                self.policy == policy,
                self.rejected == old(self).rejected,
                self.non_bar_elements == old(self).non_bar_elements,
                self.unmerged_components@ == noted_list,
                self.axes@.len() == before.len() + k,
                self.axes@.take(before.len() as int) == before,
                forall|m: int| 0 <= m < k ==> fits_chord(policy, #[trigger] measures@[m]),
                forall|m: int|
                    0 <= m < k ==> axis_of(
                        #[trigger] self.axes@[before.len() + m],
                        *mesh,
                        bars@,
                        seq![members@[m]],
                        bars@[members@[m] as int].ends@,
                        measures@[m],
                    ),
            decreases members.len() - k,
        {
            let bar: usize = members[k];
            assert(measure_complete(measures@[k as int], seq![members@[k as int]], bars@[bar as int].ends@));
            let mut some: Vec<usize> = Vec::new();
            some.push(bar);
            let mut passed: Vec<u32> = Vec::new();
            passed.push(bars[bar].ends[0]);
            passed.push(bars[bar].ends[1]);
            assert(some@ =~= seq![members@[k as int]]);
            assert(passed@ =~= bars@[bar as int].ends@);
            match build_axis(&self.policy, mesh, incidence, bars, &some, &passed, &measures[k]) {
                Some(axis) => {
                    let ghost earlier = self.axes@;
                    self.axes.push(axis);
                    assert(self.axes@.take(before.len() as int) =~= earlier.take(before.len() as int));
                },
                None => {
                    return Err("failed to retain valid source bar");
                },
            }
            k += 1;
        }
        proof {
            let added = self.axes@.skip(before.len() as int);
            assert forall|m: int| 0 <= m < members.len() implies fits_chord(policy, measures@[m]) && axis_of(
                #[trigger] added[m],
                *mesh,
                bars@,
                seq![members@[m]],
                bars@[members@[m] as int].ends@,
                measures@[m],
            ) by {
                assert(added[m] == self.axes@[before.len() + m]);
            }
            assert(self.axes@ =~= before + added);
            assert(axes_of_members(added, policy, *mesh, bars@, members@, measures@));
        }
        Ok(())
    }
}

/// A component is noted as unmerged exactly when it does not fit one chord as a whole, with the
/// numbers of its bars.
pub proof fn unmerged_components_are_noted(before: Seq<Vec<u32>>, after: Seq<Vec<u32>>, ids: Seq<u32>, whole: bool)
    requires
        noted(before, after, ids, whole),
    ensures
        after.len() == before.len() <==> whole,
        !whole ==> after.len() == before.len() + 1 && after.last()@ == ids,
        forall|k: int| 0 <= k < before.len() ==> #[trigger] after[k] == before[k],
{
    if !whole {
        assert forall|k: int| 0 <= k < before.len() implies #[trigger] after[k] == before[k] by {
            assert(after.drop_last()[k] == before[k]);
        }
    }
}

/// The numbers of bars are those of its members, one for one.
pub proof fn members_are_named(bars: Seq<Bar>, members: Seq<usize>, m: int)
    requires
        0 <= m < members.len(),
    ensures
        source_ids(bars, members).len() == members.len(),
        source_ids(bars, members)[m] == bars[members[m] as int].id,
{
}

} // verus!
