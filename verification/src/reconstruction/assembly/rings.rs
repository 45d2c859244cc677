//! Closed rings of a graph in which every node has exactly two neighbours.
use vstd::prelude::*;

verus! {

/// Neighbours of each node, the smaller one first; the relation is symmetric.
pub open spec fn two_regular(links: Seq<(usize, usize)>) -> bool {
    forall|i: int| 0 <= i < links.len() ==> two_regular_at(links, i)
}

pub open spec fn two_regular_at(links: Seq<(usize, usize)>, i: int) -> bool {
    let (a, b) = links[i];
    &&& a < b < links.len()
    &&& a != i && b != i
    &&& is_link(links, a as int, i)
    &&& is_link(links, b as int, i)
}

pub open spec fn is_link(links: Seq<(usize, usize)>, i: int, j: int) -> bool {
    links[i].0 == j || links[i].1 == j
}

pub open spec fn next_in(ring: Seq<usize>, k: int) -> usize {
    if k + 1 < ring.len() {
        ring[k + 1]
    } else {
        ring[0]
    }
}

/// A ring through distinct nodes, starting at its least node towards the
/// smaller neighbour of that node.
pub open spec fn ring_at(links: Seq<(usize, usize)>, ring: Seq<usize>) -> bool {
    &&& ring.len() >= 3
    &&& ring.no_duplicates()
    &&& forall|k: int| 0 <= k < ring.len() ==> #[trigger] ring[k] < links.len() && ring[0] <= ring[k]
    &&& forall|k: int|
        0 <= k < ring.len() ==> is_link(links, #[trigger] ring[k] as int, next_in(ring, k) as int)
    &&& ring[1] == links[ring[0] as int].0
}

pub open spec fn on_ring(rings: Seq<Vec<usize>>, i: int) -> bool {
    exists|r: int, k: int| 0 <= r < rings.len() && 0 <= k < rings[r]@.len() && #[trigger] rings[r]@[k] == i
}

/// The rings together hold every node once and are ordered by their least nodes.
pub open spec fn ring_partition(rings: Seq<Vec<usize>>, links: Seq<(usize, usize)>) -> bool {
    &&& forall|r: int| 0 <= r < rings.len() ==> ring_at(links, (#[trigger] rings[r])@)
    &&& forall|i: int| 0 <= i < links.len() ==> #[trigger] on_ring(rings, i)
    &&& apart(rings)
    &&& forall|r: int, s: int|
        0 <= r < s < rings.len() ==> #[trigger] rings[r]@[0] < #[trigger] rings[s]@[0]
}

spec fn partial_ring(links: Seq<(usize, usize)>, ring: Seq<usize>) -> bool {
    &&& ring.len() > 0
    &&& ring.no_duplicates()
    &&& forall|k: int| 0 <= k < ring.len() ==> #[trigger] ring[k] < links.len() && ring[0] <= ring[k]
    &&& forall|k: int|
        0 <= k < ring.len() - 1 ==> is_link(links, #[trigger] ring[k] as int, ring[k + 1] as int)
    &&& ring.len() > 1 ==> ring[1] == links[ring[0] as int].0
}

/// The neighbour reached from `current` when coming from `previous`.
spec fn onward(links: Seq<(usize, usize)>, previous: int, current: int) -> int {
    if links[current].0 != previous {
        links[current].0 as int
    } else {
        links[current].1 as int
    }
}

spec fn open_nodes(taken: Seq<bool>) -> nat
    decreases taken.len(),
{
    if taken.len() == 0 {
        0
    } else {
        open_nodes(taken.drop_last()) + if taken.last() {
            0nat
        } else {
            1nat
        }
    }
}

proof fn open_nodes_update(taken: Seq<bool>, i: int)
    requires
        0 <= i < taken.len(),
        !taken[i],
    ensures
        open_nodes(taken.update(i, true)) + 1 == open_nodes(taken),
    decreases taken.len(),
{
    let updated = taken.update(i, true);
    if i == taken.len() - 1 {
        assert(updated.drop_last() =~= taken.drop_last());
    } else {
        assert(updated.drop_last() =~= taken.drop_last().update(i, true));
        open_nodes_update(taken.drop_last(), i);
    }
}

/// Where the walk leads next has not been passed yet, unless it is the start.
proof fn fresh_or_start(links: Seq<(usize, usize)>, ring: Seq<usize>, c: int)
    requires
        two_regular(links),
        partial_ring(links, ring),
        c == onward(
            links,
            if ring.len() > 1 {
                ring[ring.len() - 2] as int
            } else {
                ring[0] as int
            },
            ring.last() as int,
        ),
        c != ring[0],
    ensures
        !ring.contains(c as usize),
        0 <= c < links.len(),
        is_link(links, ring.last() as int, c),
{
    let last = ring.len() - 1;
    let p = ring[last] as int;
    assert(two_regular_at(links, p));
    if ring.contains(c as usize) {
        let j = choose|j: int| 0 <= j < ring.len() && ring[j] == c as usize;
        assert(two_regular_at(links, c));
        assert(0 < j);
        assert(is_link(links, c, p));
        if j == last {
            assert(false);
        }
        let before = ring[j - 1] as int;
        let after = ring[j + 1] as int;
        assert(is_link(links, ring[j - 1] as int, ring[j] as int));
        assert(is_link(links, ring[j] as int, ring[j + 1] as int));
        assert(two_regular_at(links, before));
        assert(is_link(links, c, before));
        assert(before != after);
        assert(p == before || p == after);
        assert(ring[last] == ring[j - 1] || ring[last] == ring[j + 1]);
        assert(j + 1 == last);
        assert(c == ring[last - 1]);
        assert(false);
    }
}

proof fn closing(links: Seq<(usize, usize)>, ring: Seq<usize>)
    requires
        two_regular(links),
        partial_ring(links, ring),
        ring[0] == onward(
            links,
            if ring.len() > 1 {
                ring[ring.len() - 2] as int
            } else {
                ring[0] as int
            },
            ring.last() as int,
        ),
    ensures
        ring_at(links, ring),
        forall|k: int, j: int|
            0 <= k < ring.len() && 0 <= j < links.len() && #[trigger] is_link(links, ring[k] as int, j) ==> ring.contains(
                j as usize,
            ),
{
    let n = ring.len() as int;
    let last = n - 1;
    assert(two_regular_at(links, ring[last] as int));
    assert(two_regular_at(links, ring[0] as int));
    assert(n >= 2);
    if n == 2 {
        assert(is_link(links, ring[0] as int, ring[1] as int));
    }
    assert(n >= 3);
    assert(is_link(links, ring[last] as int, ring[0] as int));
    assert forall|k: int| 0 <= k < ring.len() implies is_link(links, #[trigger] ring[k] as int, next_in(ring, k) as int) by {
        if k < last {
            assert(is_link(links, ring[k] as int, ring[k + 1] as int));
        }
    }
    assert forall|k: int, j: int| 0 <= k < ring.len() && 0 <= j < links.len() && #[trigger] is_link(links, ring[k] as int, j) implies ring.contains(j as usize) by {
        let before = if k > 0 { k - 1 } else { last };
        let after = if k < last { k + 1 } else { 0 };
        assert(two_regular_at(links, ring[k] as int));
        assert(is_link(links, ring[k] as int, ring[after] as int)) by {
            assert(next_in(ring, k) == ring[after]);
        }
        assert(is_link(links, ring[before] as int, ring[k] as int)) by {
            assert(next_in(ring, before) == ring[k]);
        }
        assert(two_regular_at(links, ring[before] as int));
        assert(is_link(links, ring[k] as int, ring[before] as int));
        assert(ring[before] != ring[after]);
        assert(j == ring[before] || j == ring[after]);
    }
}

spec fn taken_exactly(taken: Seq<bool>, rings: Seq<Vec<usize>>, ring: Seq<usize>) -> bool {
    forall|i: int| 0 <= i < taken.len() ==> (#[trigger] taken[i] <==> on_ring(rings, i) || ring.contains(i as usize))
}

spec fn rings_closed(rings: Seq<Vec<usize>>, links: Seq<(usize, usize)>) -> bool {
    forall|i: int, j: int|
        0 <= i < links.len() && 0 <= j < links.len() && #[trigger] is_link(links, i, j) && on_ring(rings, i) ==> on_ring(rings, j)
}

proof fn ring_added(rings: Seq<Vec<usize>>, ring: Vec<usize>, longer: Seq<Vec<usize>>)
    requires
        longer == rings.push(ring),
    ensures
        forall|i: int| 0 <= i <= usize::MAX ==> (#[trigger] on_ring(longer, i) <==> on_ring(rings, i) || ring@.contains(i as usize)),
{
    assert forall|i: int| 0 <= i <= usize::MAX implies (#[trigger] on_ring(longer, i) <==> on_ring(rings, i) || ring@.contains(i as usize)) by {
        if on_ring(longer, i) {
            let (r, k) = choose|r: int, k: int| 0 <= r < longer.len() && 0 <= k < longer[r]@.len() && #[trigger] longer[r]@[k] == i;
            if r < rings.len() {
                assert(rings[r]@[k] == i);
            } else {
                assert(ring@[k] == i as usize);
            }
        }
        if on_ring(rings, i) {
            let (r, k) = choose|r: int, k: int| 0 <= r < rings.len() && 0 <= k < rings[r]@.len() && #[trigger] rings[r]@[k] == i;
            assert(longer[r]@[k] == i);
        }
        if ring@.contains(i as usize) {
            let k = choose|k: int| 0 <= k < ring@.len() && ring@[k] == i as usize;
            assert(longer[rings.len() as int]@[k] == i);
        }
    }
}

/// No node lies on two rings.
pub open spec fn apart(rings: Seq<Vec<usize>>) -> bool {
    forall|r: int, s: int, k: int, l: int|
        #![trigger rings[r]@[k], rings[s]@[l]]
        0 <= r < rings.len() && 0 <= s < rings.len() && 0 <= k < rings[r]@.len() && 0 <= l
            < rings[s]@.len() && rings[r]@[k] == rings[s]@[l] ==> r == s
}

proof fn ring_kept_apart(rings: Seq<Vec<usize>>, ring: Vec<usize>, longer: Seq<Vec<usize>>)
    requires
        longer == rings.push(ring),
        apart(rings),
        forall|k: int| 0 <= k < ring@.len() ==> !on_ring(rings, #[trigger] ring@[k] as int),
    ensures
        apart(longer),
{
    assert forall|r: int, s: int, k: int, l: int|
        #![trigger longer[r]@[k], longer[s]@[l]]
        0 <= r < longer.len() && 0 <= s < longer.len() && 0 <= k < longer[r]@.len() && 0 <= l
            < longer[s]@.len() && longer[r]@[k] == longer[s]@[l] implies r == s by {
        let m = rings.len() as int;
        if r < m && s == m {
            assert(rings[r]@[k] == longer[r]@[k]);
            assert(on_ring(rings, ring@[l] as int));
        } else if s < m && r == m {
            assert(rings[s]@[l] == longer[s]@[l]);
            assert(on_ring(rings, ring@[k] as int));
        } else if r < m && s < m {
            assert(rings[r]@[k] == rings[s]@[l]);
        }
    }
}

/// Walks one ring from its least node.
#[verifier::loop_isolation(false)]
fn walk_ring(
    links: &Vec<(usize, usize)>,
    start: usize,
    taken: &mut Vec<bool>,
    Ghost(rings): Ghost<Seq<Vec<usize>>>,
) -> (ring: Vec<usize>)
    requires
        two_regular(links@),
        old(taken)@.len() == links@.len(),
        start < links@.len(),
        !old(taken)@[start as int],
        forall|i: int| 0 <= i < start ==> old(taken)@[i],
        taken_exactly(old(taken)@, rings, Seq::empty()),
        rings_closed(rings, links@),
    ensures
        final(taken)@.len() == links@.len(),
        ring_at(links@, ring@),
        ring@[0] == start,
        taken_exactly(final(taken)@, rings, ring@),
        forall|k: int| 0 <= k < ring@.len() ==> !on_ring(rings, #[trigger] ring@[k] as int),
        forall|k: int, j: int|
            0 <= k < ring@.len() && 0 <= j < links@.len() && #[trigger] is_link(links@, ring@[k] as int, j) ==> ring@.contains(
                j as usize,
            ),
{
    let mut ring: Vec<usize> = Vec::new();
    ring.push(start);
    let ghost initial = taken@;
    taken.set(start, true);
    let mut previous: usize = start;
    let mut current: usize = start;
    proof {
        open_nodes_update(initial, start as int);
        assert(ring@[0] == start);
        assert forall|i: int| 0 <= i < taken@.len() implies (#[trigger] taken@[i] <==> on_ring(rings, i) || ring@.contains(i as usize)) by {
            assert(i < taken.len() <= usize::MAX);
            assert(initial[i] <==> on_ring(rings, i) || Seq::<usize>::empty().contains(i as usize));
            if i != start {
                assert(!ring@.contains(i as usize));
            }
        }
        assert forall|i: int| 0 <= i < start implies #[trigger] on_ring(rings, i) by {
            assert(initial[i] <==> on_ring(rings, i) || Seq::<usize>::empty().contains(i as usize));
        }
        assert(!on_ring(rings, start as int)) by {
            assert(initial[start as int] <==> on_ring(rings, start as int) || Seq::<usize>::empty().contains(start as usize));
        }
    }
    loop
        invariant
            taken@.len() == links@.len(),
            partial_ring(links@, ring@),
            ring@[0] == start,
            current == ring@.last(),
            previous == (if ring@.len() > 1 {
                ring@[ring@.len() - 2]
            } else {
                ring@[0]
            }),
            taken_exactly(taken@, rings, ring@),
            forall|k: int| 0 <= k < ring@.len() ==> !on_ring(rings, #[trigger] ring@[k] as int),
            forall|i: int| 0 <= i < start ==> taken@[i],
            forall|i: int| 0 <= i < start ==> #[trigger] on_ring(rings, i),
        decreases open_nodes(taken@),
    {
        assert(two_regular_at(links@, current as int));
        let (low, high) = links[current];
        let next: usize = if low != previous {
            low
        } else {
            high
        };
        assert(next == onward(links@, previous as int, current as int));
        if next == start {
            proof {
                closing(links@, ring@);
            }
            return ring;
        }
        proof {
            fresh_or_start(links@, ring@, next as int);
            assert(two_regular_at(links@, next as int));
            assert(is_link(links@, next as int, current as int));
            if on_ring(rings, next as int) {
                assert(on_ring(rings, current as int));
                assert(!on_ring(rings, ring@[ring@.len() - 1] as int));
            }
            assert(!taken@[next as int]);
            assert(next >= start);
            open_nodes_update(taken@, next as int);
        }
        let ghost before = ring@;
        let ghost marks = taken@;
        taken.set(next, true);
        ring.push(next);
        proof {
            assert(ring@ == before.push(next));
            assert forall|i: int| 0 <= i < taken@.len() implies (#[trigger] taken@[i] <==> on_ring(rings, i) || ring@.contains(i as usize)) by {
                assert(i < taken.len() <= usize::MAX);
                assert(marks[i] <==> on_ring(rings, i) || before.contains(i as usize));
                if before.contains(i as usize) {
                    let k = choose|k: int| 0 <= k < before.len() && before[k] == i as usize;
                    assert(ring@[k] == i as usize);
                }
                if ring@.contains(i as usize) {
                    let k = choose|k: int| 0 <= k < ring@.len() && ring@[k] == i as usize;
                    if k < before.len() {
                        assert(before[k] == i as usize);
                    }
                }
                assert(ring@[before.len() as int] == next);
            }
            assert forall|k: int| 0 <= k < ring@.len() - 1 implies is_link(links@, #[trigger] ring@[k] as int, ring@[k + 1] as int) by {
                if k < before.len() - 1 {
                    assert(is_link(links@, before[k] as int, before[k + 1] as int));
                }
            }
            assert forall|k: int| 0 <= k < ring@.len() implies !on_ring(rings, #[trigger] ring@[k] as int) by {
                if k < before.len() {
                    assert(before[k] == ring@[k]);
                }
            }
        }
        previous = current;
        current = next;
    }
}

#[verifier::opaque]
spec fn progress(links: Seq<(usize, usize)>, rings: Seq<Vec<usize>>, taken: Seq<bool>, start: int) -> bool {
    &&& taken.len() == links.len()
    &&& taken_exactly(taken, rings, Seq::empty())
    &&& rings_closed(rings, links)
    &&& forall|k: int| 0 <= k < start ==> #[trigger] taken[k]
    &&& forall|r: int|
        0 <= r < rings.len() ==> ring_at(links, (#[trigger] rings[r])@) && rings[r]@[0] < start
    &&& apart(rings)
    &&& forall|r: int, s: int|
        0 <= r < s < rings.len() ==> #[trigger] rings[r]@[0] < #[trigger] rings[s]@[0]
}

proof fn ring_registered(
    links: Seq<(usize, usize)>,
    before: Seq<Vec<usize>>,
    ring: Vec<usize>,
    rings: Seq<Vec<usize>>,
    marks: Seq<bool>,
    taken: Seq<bool>,
    start: int,
)
    requires
        links.len() <= usize::MAX,
        progress(links, before, marks, start),
        rings == before.push(ring),
        taken.len() == links.len(),
        ring_at(links, ring@),
        ring@[0] == start,
        taken_exactly(taken, before, ring@),
        forall|k: int| 0 <= k < ring@.len() ==> !on_ring(before, #[trigger] ring@[k] as int),
        forall|k: int, j: int|
            0 <= k < ring@.len() && 0 <= j < links.len() && #[trigger] is_link(links, ring@[k] as int, j) ==> ring@.contains(
                j as usize,
            ),
    ensures
        progress(links, rings, taken, start + 1),
{
    reveal(progress);
    ring_added(before, ring, rings);
    ring_kept_apart(before, ring, rings);
    assert forall|x: int| 0 <= x < taken.len() implies (#[trigger] taken[x] <==> on_ring(rings, x) || Seq::<usize>::empty().contains(x as usize)) by {
        assert(taken[x] <==> on_ring(before, x) || ring@.contains(x as usize));
        assert(on_ring(rings, x) <==> on_ring(before, x) || ring@.contains(x as usize));
    }
    assert forall|x: int, y: int| 0 <= x < links.len() && 0 <= y < links.len() && #[trigger] is_link(links, x, y) && on_ring(rings, x) implies on_ring(rings, y) by {
        assert(on_ring(rings, y) <==> on_ring(before, y) || ring@.contains(y as usize));
        if !on_ring(before, x) {
            assert(ring@.contains(x as usize));
            let k = choose|k: int| 0 <= k < ring@.len() && ring@[k] == x as usize;
            assert(is_link(links, ring@[k] as int, y));
        }
    }
    assert forall|k: int| 0 <= k < start + 1 implies #[trigger] taken[k] by {
        if k < start {
            assert(marks[k]);
            assert(marks[k] <==> on_ring(before, k) || Seq::<usize>::empty().contains(k as usize));
            assert(on_ring(before, k));
            assert(taken[k] <==> on_ring(before, k) || ring@.contains(k as usize));
        } else {
            assert(ring@[0] == start);
            assert(ring@.contains(start as usize));
        }
    }
    assert forall|r: int| 0 <= r < rings.len() implies ring_at(links, (#[trigger] rings[r])@) && rings[r]@[0] < start + 1 by {
        if r < before.len() {
            assert(rings[r] == before[r]);
        }
    }
    assert forall|r: int, s: int| 0 <= r < s < rings.len() implies #[trigger] rings[r]@[0] < #[trigger] rings[s]@[0] by {
        if s < before.len() {
            assert(before[r]@[0] < before[s]@[0]);
        } else {
            assert(before[r]@[0] < start);
        }
    }
}

proof fn progress_here(links: Seq<(usize, usize)>, rings: Seq<Vec<usize>>, taken: Seq<bool>, start: int)
    requires
        progress(links, rings, taken, start),
    ensures
        taken.len() == links.len(),
        taken_exactly(taken, rings, Seq::empty()),
        rings_closed(rings, links),
        forall|k: int| 0 <= k < start ==> #[trigger] taken[k],
        0 <= start < links.len() && taken[start] ==> progress(links, rings, taken, start + 1),
        start == links.len() ==> ring_partition(rings, links),
{
    reveal(progress);
    if 0 <= start < links.len() && taken[start] {
        assert forall|r: int| 0 <= r < rings.len() implies ring_at(links, (#[trigger] rings[r])@) && rings[r]@[0] < start + 1 by {}
        assert forall|k: int| 0 <= k < start + 1 implies #[trigger] taken[k] by {}
    }
    if start == links.len() {
        assert forall|x: int| 0 <= x < links.len() implies #[trigger] on_ring(rings, x) by {
            assert(taken[x]);
        }
    }
}

/// Decomposes a graph with two neighbours per node into its rings.
pub fn rings_of(links: &Vec<(usize, usize)>) -> (rings: Vec<Vec<usize>>)
    requires
        two_regular(links@),
    ensures
        ring_partition(rings@, links@),
{
    let mut taken: Vec<bool> = Vec::new();
    let mut i: usize = 0;
    while i < links.len()
        invariant
            i <= links.len(),
            taken.len() == i,
            forall|k: int| 0 <= k < i ==> !#[trigger] taken@[k],
        decreases links.len() - i,
    {
        taken.push(false);
        i += 1;
    }
    let mut rings: Vec<Vec<usize>> = Vec::new();
    proof {
        reveal(progress);
    }
    let mut start: usize = 0;
    while start < links.len()
        invariant
            start <= links.len(),
            two_regular(links@),
            progress(links@, rings@, taken@, start as int),
        decreases links.len() - start,
    {
        proof {
            progress_here(links@, rings@, taken@, start as int);
        }
        if !taken[start] {
            let ghost before = rings@;
            let ghost marks = taken@;
            let ring = walk_ring(links, start, &mut taken, Ghost(before));
            rings.push(ring);
            proof {
                ring_registered(links@, before, ring, rings@, marks, taken@, start as int);
            }
        }
        start += 1;
    }
    proof {
        progress_here(links@, rings@, taken@, start as int);
    }
    rings
}

/// A ring runs from node to neighbour and back to its first node, which is its least; every
/// node is on one ring and on no other.
pub proof fn rings_share_out_the_nodes(rings: Seq<Vec<usize>>, links: Seq<(usize, usize)>, r: int, k: int, i: int)
    requires
        ring_partition(rings, links),
        0 <= r < rings.len(),
        0 <= k < rings[r]@.len(),
        0 <= i < links.len(),
    ensures
        ({
            let here = rings[r]@[k];
            let next = rings[r]@[if k + 1 < rings[r]@.len() { k + 1 } else { 0 }];
            links[here as int].0 == next || links[here as int].1 == next
        }),
        rings[r]@[0] <= rings[r]@[k],
        rings[r]@[1] == links[rings[r]@[0] as int].0,
        rings[r]@.len() >= 3,
        exists|s: int| 0 <= s < rings.len() && (#[trigger] rings[s])@.contains(i as usize),
        forall|s: int| 0 <= s < rings.len() && s != r ==> !(#[trigger] rings[s])@.contains(rings[r]@[k]),
{
    assert(ring_at(links, rings[r]@));
    assert(is_link(links, rings[r]@[k] as int, next_in(rings[r]@, k) as int));
    assert(on_ring(rings, i));
    let (s, l) = choose|s: int, l: int| 0 <= s < rings.len() && 0 <= l < rings[s]@.len() && #[trigger] rings[s]@[l] == i;
    assert(rings[s]@[l] == i as usize);
    assert(rings[s]@.contains(i as usize));
    assert forall|s: int| 0 <= s < rings.len() && s != r implies !(#[trigger] rings[s])@.contains(rings[r]@[k]) by {
        if rings[s]@.contains(rings[r]@[k]) {
            let l = choose|l: int| 0 <= l < rings[s]@.len() && rings[s]@[l] == rings[r]@[k];
            assert(rings[r]@[k] == rings[s]@[l]);
        }
    }
}

} // verus!
