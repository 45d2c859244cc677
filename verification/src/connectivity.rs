//! Connected components of a finite relation, in canonical order.
use vstd::prelude::*;
use crate::ordering::ascending_indices;
use crate::registry::Registry;

verus! {

/// Two items touch when the relation holds between them either way round.
pub open spec fn touch(rel: spec_fn(int, int) -> bool, a: int, b: int) -> bool {
    rel(a, b) || rel(b, a)
}

/// A walk through items below `n`, each step between touching items.
pub open spec fn walk(n: int, rel: spec_fn(int, int) -> bool, p: Seq<int>) -> bool {
    &&& p.len() > 0
    &&& forall|i: int| 0 <= i < p.len() ==> 0 <= #[trigger] p[i] < n
    &&& forall|i: int, j: int|
        #![trigger p[i], p[j]]
        0 <= i < p.len() && j == i + 1 && j < p.len() ==> touch(rel, p[i], p[j])
}

pub open spec fn walk_between(
    n: int,
    rel: spec_fn(int, int) -> bool,
    a: int,
    b: int,
    p: Seq<int>,
) -> bool {
    walk(n, rel, p) && p[0] == a && p.last() == b
}

/// Items `a` and `b` are joined by a walk.
pub open spec fn connected(n: int, rel: spec_fn(int, int) -> bool, a: int, b: int) -> bool {
    exists|p: Seq<int>| walk_between(n, rel, a, b, p)
}

pub proof fn connected_reflexive(n: int, rel: spec_fn(int, int) -> bool, a: int)
    requires
        0 <= a < n,
    ensures
        connected(n, rel, a, a),
{
    assert(walk_between(n, rel, a, a, seq![a]));
}

pub proof fn connected_step(n: int, rel: spec_fn(int, int) -> bool, a: int, b: int)
    requires
        0 <= a < n,
        0 <= b < n,
        touch(rel, a, b),
    ensures
        connected(n, rel, a, b),
{
    assert(walk_between(n, rel, a, b, seq![a, b]));
}

pub proof fn connected_symmetric(n: int, rel: spec_fn(int, int) -> bool, a: int, b: int)
    requires
        connected(n, rel, a, b),
    ensures
        connected(n, rel, b, a),
{
    let p = choose|p: Seq<int>| walk_between(n, rel, a, b, p);
    let q = p.reverse();
    assert forall|i: int, j: int|
        #![trigger q[i], q[j]]
        0 <= i < q.len() && j == i + 1 && j < q.len() implies touch(rel, q[i], q[j]) by {
        assert(touch(rel, p[p.len() - 1 - j], p[p.len() - 1 - i]));
    }
    assert(walk_between(n, rel, b, a, q));
}

pub proof fn connected_transitive(
    n: int,
    rel: spec_fn(int, int) -> bool,
    a: int,
    b: int,
    c: int,
)
    requires
        connected(n, rel, a, b),
        connected(n, rel, b, c),
    ensures
        connected(n, rel, a, c),
{
    let p = choose|p: Seq<int>| walk_between(n, rel, a, b, p);
    let q = choose|q: Seq<int>| walk_between(n, rel, b, c, q);
    let r = p + q.drop_first();
    assert forall|i: int, j: int|
        #![trigger r[i], r[j]]
        0 <= i < r.len() && j == i + 1 && j < r.len() implies touch(rel, r[i], r[j]) by {
        if j < p.len() {
            assert(touch(rel, p[i], p[j]));
        } else if i < p.len() {
            assert(r[i] == q[0]);
            assert(touch(rel, q[0], q[1]));
        } else {
            assert(touch(rel, q[i - p.len() + 1], q[j - p.len() + 1]));
        }
    }
    assert(walk_between(n, rel, a, c, r));
}

/// A walk stays inside every set that touching items do not leave.
pub proof fn connected_closed(
    n: int,
    rel: spec_fn(int, int) -> bool,
    a: int,
    b: int,
    inside: spec_fn(int) -> bool,
)
    requires
        connected(n, rel, a, b),
        inside(a),
        forall|x: int, y: int|
            0 <= x < n && 0 <= y < n && inside(x) && #[trigger] touch(rel, x, y) ==> inside(y),
    ensures
        inside(b),
{
    let p = choose|p: Seq<int>| walk_between(n, rel, a, b, p);
    closed_prefix(n, rel, p, p.len() - 1, inside);
}

proof fn closed_prefix(
    n: int,
    rel: spec_fn(int, int) -> bool,
    p: Seq<int>,
    k: int,
    inside: spec_fn(int) -> bool,
)
    requires
        walk(n, rel, p),
        0 <= k < p.len(),
        inside(p[0]),
        forall|x: int, y: int|
            0 <= x < n && 0 <= y < n && inside(x) && #[trigger] touch(rel, x, y) ==> inside(y),
    ensures
        inside(p[k]),
    decreases k,
{
    if k > 0 {
        closed_prefix(n, rel, p, k - 1, inside);
        assert(touch(rel, p[k - 1], p[k]));
    }
}

/// A relation whose touching pairs are all connected under another one joins
/// no more than the other does.
pub proof fn connected_refines(
    n: int,
    rel: spec_fn(int, int) -> bool,
    other: spec_fn(int, int) -> bool,
    a: int,
    b: int,
)
    requires
        connected(n, rel, a, b),
        forall|x: int, y: int|
            0 <= x < n && 0 <= y < n && #[trigger] touch(rel, x, y) ==> connected(n, other, x, y),
    ensures
        connected(n, other, a, b),
{
    let p = choose|p: Seq<int>| walk_between(n, rel, a, b, p);
    assert(0 <= p[0] < n);
    connected_reflexive(n, other, a);
    let inside = |x: int| connected(n, other, a, x);
    assert forall|x: int, y: int|
        0 <= x < n && 0 <= y < n && inside(x) && #[trigger] touch(rel, x, y) implies inside(
        y,
    ) by {
        connected_transitive(n, other, a, x, y);
    }
    connected_closed(n, rel, a, b, inside);
}

/// The relation given by a list of index pairs.
pub open spec fn pair_relation(edges: Seq<(usize, usize)>) -> spec_fn(int, int) -> bool {
    |a: int, b: int| exists|k: int| 0 <= k < edges.len() && #[trigger] edges[k] == (a as usize, b as usize)
        && edges[k].0 == a && edges[k].1 == b
}

/// The groups are the connected components of `rel` on `0..n`: each ascending,
/// ordered by their first items, together holding every item once.
pub open spec fn components_of(
    groups: Seq<Vec<usize>>,
    n: int,
    rel: spec_fn(int, int) -> bool,
) -> bool {
    &&& forall|g: int|
        0 <= g < groups.len() ==> (#[trigger] groups[g])@.len() > 0 && ascending_indices(groups[g]@)
    &&& forall|g: int, k: int|
        0 <= g < groups.len() && 0 <= k < groups[g]@.len() ==> #[trigger] groups[g]@[k] < n
    &&& forall|i: int| 0 <= i < n ==> #[trigger] in_some_group(groups, i)
    &&& forall|g: int, h: int, k: int, l: int|
        #![trigger groups[g]@[k], groups[h]@[l]]
        0 <= g < groups.len() && 0 <= h < groups.len() && 0 <= k < groups[g]@.len() && 0 <= l
            < groups[h]@.len() ==> (connected(n, rel, groups[g]@[k] as int, groups[h]@[l] as int)
            <==> g == h)
    &&& forall|g: int, h: int|
        0 <= g < h < groups.len() ==> #[trigger] groups[g]@[0] < #[trigger] groups[h]@[0]
}

pub open spec fn in_some_group(groups: Seq<Vec<usize>>, i: int) -> bool {
    exists|g: int, k: int|
        0 <= g < groups.len() && 0 <= k < groups[g]@.len() && #[trigger] groups[g]@[k] == i
}

spec fn open_count(labels: Seq<usize>, none: usize) -> nat
    decreases labels.len(),
{
    if labels.len() == 0 {
        0
    } else {
        open_count(labels.drop_last(), none) + if labels.last() == none {
            1nat
        } else {
            0nat
        }
    }
}

proof fn open_count_update(labels: Seq<usize>, none: usize, i: int, value: usize)
    requires
        0 <= i < labels.len(),
        labels[i] == none,
        value != none,
    ensures
        open_count(labels.update(i, value), none) + 1 == open_count(labels, none),
    decreases labels.len(),
{
    let updated = labels.update(i, value);
    if i == labels.len() - 1 {
        assert(updated.drop_last() =~= labels.drop_last());
    } else {
        assert(updated.drop_last() =~= labels.drop_last().update(i, value));
        open_count_update(labels.drop_last(), none, i, value);
    }
}

spec fn neighbours_listed(
    n: int,
    rel: spec_fn(int, int) -> bool,
    adjacent: Seq<Vec<usize>>,
) -> bool {
    &&& adjacent.len() == n
    &&& forall|a: int, k: int|
        0 <= a < n && 0 <= k < adjacent[a]@.len() ==> #[trigger] adjacent[a]@[k] < n && touch(
            rel,
            a,
            adjacent[a]@[k] as int,
        )
    &&& forall|a: int, b: int|
        0 <= a < n && 0 <= b < n && #[trigger] touch(rel, a, b) ==> adjacent[a]@.contains(
            b as usize,
        )
}

fn neighbours(n: usize, edges: &Vec<(usize, usize)>) -> (adjacent: Vec<Vec<usize>>)
    requires
        forall|k: int| 0 <= k < edges.len() ==> (#[trigger] edges@[k]).0 < n && edges@[k].1 < n,
    ensures
        neighbours_listed(n as int, pair_relation(edges@), adjacent@),
{
    let mut adjacent: Vec<Vec<usize>> = Vec::new();
    let mut i: usize = 0;
    while i < n
        invariant
            i <= n,
            adjacent.len() == i,
            forall|a: int| 0 <= a < i ==> (#[trigger] adjacent@[a])@.len() == 0,
        decreases n - i,
    {
        adjacent.push(Vec::new());
        i += 1;
    }
    let ghost rel = pair_relation(edges@);
    let mut k: usize = 0;
    while k < edges.len()
        invariant
            k <= edges.len(),
            adjacent.len() == n,
            rel == pair_relation(edges@),
            forall|m: int|
                0 <= m < edges.len() ==> (#[trigger] edges@[m]).0 < n && edges@[m].1 < n,
            forall|a: int, m: int|
                0 <= a < n && 0 <= m < adjacent@[a]@.len() ==> #[trigger] adjacent@[a]@[m] < n
                    && touch(rel, a, adjacent@[a]@[m] as int),
            forall|m: int|
                0 <= m < k ==> adjacent@[(#[trigger] edges@[m]).0 as int]@.contains(edges@[m].1)
                    && adjacent@[edges@[m].1 as int]@.contains(edges@[m].0),
        decreases edges.len() - k,
    {
        let (a, b) = edges[k];
        assert(edges@[k as int] == (a as int as usize, b as int as usize));
        assert(rel(a as int, b as int));
        let ghost first = adjacent@;
        adjacent[a].push(b);
        let ghost second = adjacent@;
        adjacent[b].push(a);
        proof {
            assert forall|c: int, x: usize| 0 <= c < n && first[c]@.contains(x) implies #[trigger] adjacent@[c]@.contains(x) by {
                let m = choose|m: int| 0 <= m < first[c]@.len() && first[c]@[m] == x;
                assert(second[c]@[m] == x);
                assert(adjacent@[c]@[m] == x);
            }
            assert(second[a as int]@.last() == b);
            assert(adjacent@[a as int]@[first[a as int]@.len() as int] == b);
            assert(adjacent@[b as int]@.last() == a);
            assert(adjacent@[b as int]@[adjacent@[b as int]@.len() - 1] == a);
            assert forall|c: int, m: int| 0 <= c < n && 0 <= m < adjacent@[c]@.len() implies #[trigger] adjacent@[c]@[m] < n
                    && touch(rel, c, adjacent@[c]@[m] as int) by {
                if m < first[c]@.len() {
                    assert(adjacent@[c]@[m] == first[c]@[m]);
                }
            }
        }
        k += 1;
    }
    adjacent
}

spec fn labelled(
    n: int,
    rel: spec_fn(int, int) -> bool,
    labels: Seq<usize>,
    seeds: Seq<usize>,
) -> bool {
    &&& labels.len() == n
    &&& seeds.len() <= n
    &&& ascending_indices(seeds)
    &&& forall|c: int|
        0 <= c < seeds.len() ==> #[trigger] seeds[c] < n && labels[seeds[c] as int] == c
    &&& forall|i: int|
        0 <= i < n ==> #[trigger] labels[i] == n || (labels[i] < seeds.len()
            && seeds[labels[i] as int] <= i && connected(
            n,
            rel,
            seeds[labels[i] as int] as int,
            i,
        ))
}

spec fn closed_below(
    n: int,
    rel: spec_fn(int, int) -> bool,
    labels: Seq<usize>,
    count: int,
) -> bool {
    forall|a: int, b: int|
        0 <= a < n && 0 <= b < n && #[trigger] touch(rel, a, b) && labels[a] < count ==> labels[b]
            == labels[a]
}

/// Labels every item with its component; components are numbered by their
/// least items, which `seeds` lists.
fn label_components(n: usize, edges: &Vec<(usize, usize)>) -> (r: (Vec<usize>, Vec<usize>))
    requires
        forall|k: int| 0 <= k < edges.len() ==> (#[trigger] edges@[k]).0 < n && edges@[k].1 < n,
    ensures
        labelled(n as int, pair_relation(edges@), r.0@, r.1@),
        closed_below(n as int, pair_relation(edges@), r.0@, n as int),
        forall|i: int| 0 <= i < n ==> #[trigger] r.0@[i] < r.1@.len(),
{
    let adjacent = neighbours(n, edges);
    let ghost rel = pair_relation(edges@);
    let mut labels: Vec<usize> = Vec::new();
    let mut i: usize = 0;
    while i < n
        invariant
            i <= n,
            labels.len() == i,
            forall|k: int| 0 <= k < i ==> labels@[k] == n,
        decreases n - i,
    {
        labels.push(n);
        i += 1;
    }
    let mut seeds: Vec<usize> = Vec::new();
    let mut seed: usize = 0;
    while seed < n
        invariant
            seed <= n,
            seeds.len() <= seed,
            neighbours_listed(n as int, rel, adjacent@),
            labelled(n as int, rel, labels@, seeds@),
            closed_below(n as int, rel, labels@, seeds.len() as int),
            forall|k: int| 0 <= k < seed ==> #[trigger] labels@[k] < seeds.len(),
            forall|c: int| 0 <= c < seeds.len() ==> #[trigger] seeds@[c] < seed,
        decreases n - seed,
    {
        if labels[seed] == n {
            let label: usize = seeds.len();
            let ghost old_labels = labels@;
            labels.set(seed, label);
            seeds.push(seed);
            let mut stack: Vec<usize> = Vec::new();
            stack.push(seed);
            proof {
                connected_reflexive(n as int, rel, seed as int);
                open_count_update(old_labels, n, seed as int, label);
                assert(stack@[0] == seed);
                assert forall|a: int, b: int| 0 <= a < n && 0 <= b < n && #[trigger] touch(rel, a, b) && labels@[a] < label implies labels@[b]
                    == labels@[a] by {
                    assert(old_labels[b] == old_labels[a]);
                }
            }
            while stack.len() > 0
                invariant
                    seed < n,
                    label < n,
                    seeds.len() == label + 1,
                    seeds@[label as int] == seed,
                    neighbours_listed(n as int, rel, adjacent@),
                    labelled(n as int, rel, labels@, seeds@),
                    closed_below(n as int, rel, labels@, label as int),
                    forall|k: int| 0 <= k <= seed ==> #[trigger] labels@[k] < seeds.len(),
                    forall|c: int| 0 <= c < seeds.len() ==> #[trigger] seeds@[c] <= seed,
                    forall|k: int|
                        0 <= k < stack.len() ==> #[trigger] stack@[k] < n && labels@[stack@[k] as int]
                            == label,
                    forall|a: int, b: int|
                        0 <= a < n && 0 <= b < n && #[trigger] touch(rel, a, b) && labels@[a] == label
                            ==> labels@[b] == label || stack@.contains(a as usize),
                decreases open_count(labels@, n), stack.len(),
            {
                let ghost before_stack = stack@;
                let current: usize = match stack.pop() {
                    Some(value) => value,
                    None => 0,
                };
                assert(before_stack[before_stack.len() - 1] == current);
                let ghost rest = stack@;
                let ghost start_labels = labels@;
                proof {
                    assert forall|a: int, b: int| 0 <= a < n && 0 <= b < n && #[trigger] touch(rel, a, b) && labels@[a]
                        == label && a != current implies labels@[b] == label || stack@.contains(a as usize) by {
                        if labels@[b] != label {
                            let m = choose|m: int| 0 <= m < before_stack.len() && before_stack[m] == a as usize;
                            assert(stack@[m] == a as usize);
                        }
                    }
                }
                let mut k: usize = 0;
                while k < adjacent[current].len()
                    invariant
                        k <= adjacent@[current as int]@.len(),
                        seed < n,
                        current < n,
                        label < n,
                        seeds.len() == label + 1,
                        seeds@[label as int] == seed,
                        neighbours_listed(n as int, rel, adjacent@),
                        labelled(n as int, rel, labels@, seeds@),
                        closed_below(n as int, rel, labels@, label as int),
                        labels@[current as int] == label,
                        forall|k: int| 0 <= k <= seed ==> #[trigger] labels@[k] < seeds.len(),
                        forall|c: int| 0 <= c < seeds.len() ==> #[trigger] seeds@[c] <= seed,
                        forall|k: int|
                            0 <= k < stack.len() ==> #[trigger] stack@[k] < n
                                && labels@[stack@[k] as int] == label,
                        forall|a: int, b: int|
                            0 <= a < n && 0 <= b < n && #[trigger] touch(rel, a, b) && labels@[a]
                                == label && a != current ==> labels@[b] == label || stack@.contains(
                                a as usize,
                            ),
                        forall|m: int|
                            0 <= m < k ==> labels@[#[trigger] adjacent@[current as int]@[m] as int]
                                == label,
                        open_count(labels@, n) < open_count(start_labels, n) || (open_count(
                            labels@,
                            n,
                        ) == open_count(start_labels, n) && stack@ == rest),
                    decreases adjacent@[current as int]@.len() - k,
                {
                    let next: usize = adjacent[current][k];
                    assert(touch(rel, current as int, next as int));
                    assert(touch(rel, next as int, current as int));
                    if labels[next] == n {
                        let ghost prior = labels@;
                        let ghost prior_stack = stack@;
                        proof {
                            connected_step(n as int, rel, current as int, next as int);
                            connected_transitive(
                                n as int,
                                rel,
                                seed as int,
                                current as int,
                                next as int,
                            );
                            open_count_update(prior, n, next as int, label);
                        }
                        labels.set(next, label);
                        stack.push(next);
                        proof {
                            assert(stack@[stack.len() - 1] == next);
                            assert forall|x: usize| prior_stack.contains(x) implies stack@.contains(x) by {
                                let m = choose|m: int| 0 <= m < prior_stack.len() && prior_stack[m] == x;
                                assert(stack@[m] == x);
                            }
                            assert forall|a: int, b: int| 0 <= a < n && 0 <= b < n && #[trigger] touch(rel, a, b) && labels@[a] < label implies labels@[b]
                                == labels@[a] by {
                                assert(prior[a] == labels@[a]);
                                assert(prior[b] == prior[a]);
                            }
                        }
                    } else {
                        assert(labels@[next as int] == label) by {
                            if labels@[next as int] < label {
                                assert(labels@[current as int] == labels@[next as int]);
                            }
                        }
                    }
                    k += 1;
                }
                assert forall|a: int, b: int| 0 <= a < n && 0 <= b < n && #[trigger] touch(rel, a, b) && labels@[a] == label implies labels@[b] == label
                    || stack@.contains(a as usize) by {
                    if a == current {
                        assert(adjacent@[a]@.contains(b as usize));
                        let m = choose|m: int| 0 <= m < adjacent@[a]@.len() && adjacent@[a]@[m] == b as usize;
                        assert(labels@[adjacent@[a]@[m] as int] == label);
                    }
                }
            }
            proof {
                assert forall|a: int, b: int| 0 <= a < n && 0 <= b < n && #[trigger] touch(rel, a, b) && labels@[a] < seeds.len() implies labels@[b]
                    == labels@[a] by {
                    if labels@[a] == label {
                        assert(!stack@.contains(a as usize));
                    }
                }
            }
        }
        seed += 1;
    }
    (labels, seeds)
}

/// The connected components of the listed pairs on `0..n`.
pub fn connected_groups(n: usize, edges: &Vec<(usize, usize)>) -> (groups: Vec<Vec<usize>>)
    requires
        forall|k: int| 0 <= k < edges.len() ==> (#[trigger] edges@[k]).0 < n && edges@[k].1 < n,
    ensures
        components_of(groups@, n as int, pair_relation(edges@)),
{
    let (labels, seeds) = label_components(n, edges);
    let ghost rel = pair_relation(edges@);
    let mut groups: Vec<Vec<usize>> = Vec::new();
    let mut i: usize = 0;
    while i < seeds.len()
        invariant
            i <= seeds.len(),
            groups.len() == i,
            forall|g: int| 0 <= g < i ==> (#[trigger] groups@[g])@.len() == 0,
        decreases seeds.len() - i,
    {
        groups.push(Vec::new());
        i += 1;
    }
    let mut item: usize = 0;
    while item < n
        invariant
            item <= n,
            groups.len() == seeds.len(),
            labelled(n as int, rel, labels@, seeds@),
            forall|i: int| 0 <= i < n ==> #[trigger] labels@[i] < seeds.len(),
            forall|g: int| 0 <= g < groups.len() ==> ascending_indices((#[trigger] groups@[g])@),
            forall|g: int, k: int|
                0 <= g < groups.len() && 0 <= k < groups@[g]@.len() ==> #[trigger] groups@[g]@[k]
                    < item && labels@[groups@[g]@[k] as int] == g,
            forall|i: int| 0 <= i < item ==> #[trigger] groups@[labels@[i] as int]@.contains(i as usize),
            forall|g: int|
                0 <= g < groups.len() && seeds@[g] < item ==> (#[trigger] groups@[g])@.len() > 0 && groups@[g]@[0] == seeds@[g],
        decreases n - item,
    {
        let label: usize = labels[item];
        let ghost before = groups@;
        groups[label].push(item);
        proof {
            assert(groups@[label as int]@ == before[label as int]@.push(item));
            assert forall|i: int| 0 <= i < item + 1 implies #[trigger] groups@[labels@[i] as int]@.contains(i as usize) by {
                if i < item {
                    let g = labels@[i] as int;
                    assert(before[g]@.contains(i as usize));
                    let k = choose|k: int| 0 <= k < before[g]@.len() && before[g]@[k] == i as usize;
                    assert(groups@[g]@[k] == i as usize);
                } else {
                    assert(groups@[label as int]@[groups@[label as int]@.len() - 1] == item);
                }
            }
            assert forall|g: int| 0 <= g < groups.len() && seeds@[g] < item + 1 implies (#[trigger] groups@[g])@.len() > 0 && groups@[g]@[0] == seeds@[g] by {
                if seeds@[g] < item {
                    assert(before[g]@[0] == seeds@[g]);
                } else {
                    if before[g]@.len() > 0 {
                        assert(before[g]@[0] < item);
                        assert(labels@[before[g]@[0] as int] == g);
                    }
                    assert(labels@[seeds@[g] as int] == g);
                    assert(g == label);
                }
            }
        }
        item += 1;
    }
    proof {
        assert forall|i: int| 0 <= i < n implies #[trigger] in_some_group(groups@, i) by {
            let g = labels@[i] as int;
            assert(groups@[g]@.contains(i as usize));
            let k = choose|k: int| 0 <= k < groups@[g]@.len() && groups@[g]@[k] == i as usize;
            assert(groups@[g]@[k] == i);
        }
        assert forall|g: int, h: int, k: int, l: int|
            #![trigger groups@[g]@[k], groups@[h]@[l]]
            0 <= g < groups.len() && 0 <= h < groups.len() && 0 <= k < groups@[g]@.len() && 0 <= l
                < groups@[h]@.len() implies (connected(n as int, rel, groups@[g]@[k] as int, groups@[h]@[l] as int)
                <==> g == h) by {
            let a = groups@[g]@[k] as int;
            let b = groups@[h]@[l] as int;
            assert(labels@[a] == g && labels@[b] == h);
            if g == h {
                let s = seeds@[g] as int;
                connected_symmetric(n as int, rel, s, a);
                connected_transitive(n as int, rel, a, s, b);
            }
            if connected(n as int, rel, a, b) {
                let inside = |x: int| labels@[x] == g;
                assert forall|x: int, y: int|
                    0 <= x < n && 0 <= y < n && inside(x) && #[trigger] touch(rel, x, y) implies inside(y) by {
                    assert(labels@[x] < n);
                }
                connected_closed(n as int, rel, a, b, inside);
            }
        }
        assert forall|g: int, h: int|
            0 <= g < h < groups.len() implies #[trigger] groups@[g]@[0] < #[trigger] groups@[h]@[0] by {
            assert(seeds@[g] < n && seeds@[h] < n);
            assert(groups@[g]@[0] == seeds@[g]);
            assert(groups@[h]@[0] == seeds@[h]);
        }
        assert forall|g: int| 0 <= g < groups.len() implies (#[trigger] groups@[g])@.len() > 0 by {
            assert(seeds@[g] < n);
        }
    }
    groups
}

/// Items that carry a common label.
pub open spec fn share_label(labels: Seq<Vec<u64>>) -> spec_fn(int, int) -> bool {
    |a: int, b: int|
        exists|x: u64| #[trigger] labels[a]@.contains(x) && labels[b]@.contains(x)
}

/// Two relations that connect the same items have the same components.
pub proof fn components_transfer(
    groups: Seq<Vec<usize>>,
    n: int,
    rel: spec_fn(int, int) -> bool,
    other: spec_fn(int, int) -> bool,
)
    requires
        components_of(groups, n, rel),
        forall|x: int, y: int|
            0 <= x < n && 0 <= y < n && #[trigger] touch(rel, x, y) ==> connected(n, other, x, y),
        forall|x: int, y: int|
            0 <= x < n && 0 <= y < n && #[trigger] touch(other, x, y) ==> connected(n, rel, x, y),
    ensures
        components_of(groups, n, other),
{
    assert forall|g: int, h: int, k: int, l: int|
        #![trigger groups[g]@[k], groups[h]@[l]]
        0 <= g < groups.len() && 0 <= h < groups.len() && 0 <= k < groups[g]@.len() && 0 <= l
            < groups[h]@.len() implies (connected(n, other, groups[g]@[k] as int, groups[h]@[l] as int)
            <==> g == h) by {
        let a = groups[g]@[k] as int;
        let b = groups[h]@[l] as int;
        if connected(n, rel, a, b) {
            connected_refines(n, rel, other, a, b);
        }
        if connected(n, other, a, b) {
            connected_refines(n, other, rel, a, b);
        }
    }
}

spec fn owners_known(
    labels: Seq<Vec<u64>>,
    upto: int,
    owner: Map<u64, usize>,
) -> bool {
    &&& forall|x: u64| #[trigger]
        owner.dom().contains(x) ==> owner[x] < labels.len() && labels[owner[x] as int]@.contains(x)
    &&& forall|i: int, k: int|
        0 <= i < upto && 0 <= k < labels[i]@.len() ==> owner.dom().contains(#[trigger] labels[i]@[k])
}

spec fn linked_to_owner(
    labels: Seq<Vec<u64>>,
    owner: Map<u64, usize>,
    edges: Seq<(usize, usize)>,
    i: int,
    k: int,
) -> bool {
    owner[labels[i]@[k]] == i || edges.contains((i as usize, owner[labels[i]@[k]]))
}

fn label_edges(labels: &Vec<Vec<u64>>) -> (edges: Vec<(usize, usize)>)
    ensures
        forall|k: int|
            0 <= k < edges.len() ==> (#[trigger] edges@[k]).0 < labels.len() && edges@[k].1
                < labels.len(),
        forall|x: int, y: int|
            0 <= x < labels.len() && 0 <= y < labels.len() && #[trigger] touch(
                pair_relation(edges@),
                x,
                y,
            ) ==> touch(share_label(labels@), x, y),
        forall|x: int, y: int|
            0 <= x < labels.len() && 0 <= y < labels.len() && #[trigger] touch(
                share_label(labels@),
                x,
                y,
            ) ==> connected(labels.len() as int, pair_relation(edges@), x, y),
{
    let mut owner = Registry::new();
    let mut edges: Vec<(usize, usize)> = Vec::new();
    let ghost n = labels.len() as int;
    let mut i: usize = 0;
    while i < labels.len()
        invariant
            i <= labels.len(),
            owners_known(labels@, i as int, owner@),
            forall|e: int|
                0 <= e < edges.len() ==> (#[trigger] edges@[e]).0 < labels.len() && edges@[e].1
                    < labels.len() && share_label(labels@)(edges@[e].0 as int, edges@[e].1 as int),
            forall|a: int, k: int|
                0 <= a < i && 0 <= k < labels@[a]@.len() ==> #[trigger] linked_to_owner(
                    labels@,
                    owner@,
                    edges@,
                    a,
                    k,
                ),
        decreases labels.len() - i,
    {
        let mut k: usize = 0;
        while k < labels[i].len()
            invariant
                i < labels.len(),
                k <= labels@[i as int]@.len(),
                owners_known(labels@, i as int, owner@),
                forall|l: int|
                    0 <= l < k ==> owner@.dom().contains(#[trigger] labels@[i as int]@[l]),
                forall|e: int|
                    0 <= e < edges.len() ==> (#[trigger] edges@[e]).0 < labels.len() && edges@[e].1
                        < labels.len() && share_label(labels@)(
                        edges@[e].0 as int,
                        edges@[e].1 as int,
                    ),
                forall|a: int, l: int|
                    0 <= a < i && 0 <= l < labels@[a]@.len() ==> #[trigger] linked_to_owner(
                        labels@,
                        owner@,
                        edges@,
                        a,
                        l,
                    ),
                forall|l: int|
                    0 <= l < k ==> #[trigger] linked_to_owner(labels@, owner@, edges@, i as int, l),
            decreases labels@[i as int]@.len() - k,
        {
            let label: u64 = labels[i][k];
            assert(labels@[i as int]@.contains(label));
            let ghost before = edges@;
            let ghost known = owner@;
            match owner.get(label) {
                Some(first) => {
                    edges.push((i, first));
                    proof {
                        assert(edges@[edges.len() - 1] == (i, first));
                        assert(labels@[i as int]@.contains(label) && labels@[first as int]@.contains(label));
                        assert forall|x: (usize, usize)| before.contains(x) implies edges@.contains(x) by {
                            let m = choose|m: int| 0 <= m < before.len() && before[m] == x;
                            assert(edges@[m] == x);
                        }
                        assert forall|a: int, l: int| 0 <= a < i && 0 <= l < labels@[a]@.len() implies #[trigger] linked_to_owner(labels@, owner@, edges@, a, l) by {
                            assert(linked_to_owner(labels@, known, before, a, l));
                        }
                        assert forall|l: int| 0 <= l < k + 1 implies #[trigger] linked_to_owner(labels@, owner@, edges@, i as int, l) by {
                            if l < k {
                                assert(linked_to_owner(labels@, known, before, i as int, l));
                            }
                        }
                    }
                },
                None => {
                    owner.insert(label, i);
                    proof {
                        assert(owner@ == known.insert(label, i));
                        assert forall|a: int, l: int| 0 <= a < i && 0 <= l < labels@[a]@.len() implies #[trigger] linked_to_owner(labels@, owner@, edges@, a, l) by {
                            assert(linked_to_owner(labels@, known, before, a, l));
                            assert(known.dom().contains(labels@[a]@[l]));
                        }
                        assert forall|l: int| 0 <= l < k + 1 implies #[trigger] linked_to_owner(labels@, owner@, edges@, i as int, l) by {
                            if l < k {
                                assert(linked_to_owner(labels@, known, before, i as int, l));
                                assert(known.dom().contains(labels@[i as int]@[l]));
                            }
                        }
                    }
                },
            }
            k += 1;
        }
        i += 1;
    }
    proof {
        let rel = pair_relation(edges@);
        assert forall|x: int, y: int|
            0 <= x < n && 0 <= y < n && #[trigger] touch(share_label(labels@), x, y) implies connected(n, rel, x, y) by {
            let l = choose|l: u64| #[trigger] labels@[x]@.contains(l) && labels@[y]@.contains(l);
            let kx = choose|k: int| 0 <= k < labels@[x]@.len() && labels@[x]@[k] == l;
            let ky = choose|k: int| 0 <= k < labels@[y]@.len() && labels@[y]@[k] == l;
            let o = owner@[l] as int;
            assert(owner@.dom().contains(labels@[x]@[kx]));
            assert(linked_to_owner(labels@, owner@, edges@, x, kx));
            assert(linked_to_owner(labels@, owner@, edges@, y, ky));
            joined(n, edges@, x, o);
            joined(n, edges@, y, o);
            connected_symmetric(n, rel, y, o);
            connected_transitive(n, rel, x, o, y);
        }
        assert forall|x: int, y: int|
            0 <= x < n && 0 <= y < n && #[trigger] touch(rel, x, y) implies touch(share_label(labels@), x, y) by {
            if rel(x, y) {
                let e = choose|e: int| 0 <= e < edges@.len() && #[trigger] edges@[e] == (x as usize, y as usize) && edges@[e].0 == x && edges@[e].1 == y;
                assert(share_label(labels@)(edges@[e].0 as int, edges@[e].1 as int));
            } else {
                let e = choose|e: int| 0 <= e < edges@.len() && #[trigger] edges@[e] == (y as usize, x as usize) && edges@[e].0 == y && edges@[e].1 == x;
                assert(share_label(labels@)(edges@[e].0 as int, edges@[e].1 as int));
            }
        }
    }
    edges
}

proof fn joined(n: int, edges: Seq<(usize, usize)>, a: int, b: int)
    requires
        0 <= a < n <= usize::MAX,
        0 <= b < n,
        a == b || edges.contains((a as usize, b as usize)),
    ensures
        connected(n, pair_relation(edges), a, b),
{
    if a == b {
        connected_reflexive(n, pair_relation(edges), a);
    } else {
        let e = choose|e: int| 0 <= e < edges.len() && edges[e] == (a as usize, b as usize);
        assert(edges[e].0 == a && edges[e].1 == b);
        assert(pair_relation(edges)(a, b));
        connected_step(n, pair_relation(edges), a, b);
    }
}

/// Groups items through the labels that they share, however long the chain.
pub fn linked_groups(labels: &Vec<Vec<u64>>) -> (groups: Vec<Vec<usize>>)
    ensures
        components_of(groups@, labels.len() as int, share_label(labels@)),
{
    let edges = label_edges(labels);
    let groups = connected_groups(labels.len(), &edges);
    proof {
        let n = labels.len() as int;
        assert forall|x: int, y: int|
            0 <= x < n && 0 <= y < n && #[trigger] touch(pair_relation(edges@), x, y) implies connected(n, share_label(labels@), x, y) by {
            connected_step(n, share_label(labels@), x, y);
        }
        components_transfer(groups@, n, pair_relation(edges@), share_label(labels@));
    }
    groups
}

/// The components are determined by the relation alone: no order of edges or
/// of visits can change them.
pub proof fn components_unique(
    first: Seq<Vec<usize>>,
    second: Seq<Vec<usize>>,
    n: int,
    rel: spec_fn(int, int) -> bool,
)
    requires
        components_of(first, n, rel),
        components_of(second, n, rel),
    ensures
        first.len() == second.len(),
        forall|g: int| 0 <= g < first.len() ==> (#[trigger] first[g])@ == second[g]@,
    decreases first.len(),
{
    components_agree(first, second, n, rel, first.len() as int);
    components_agree(second, first, n, rel, second.len() as int);
}

proof fn same_members(
    first: Seq<Vec<usize>>,
    second: Seq<Vec<usize>>,
    n: int,
    rel: spec_fn(int, int) -> bool,
    g: int,
    h: int,
)
    requires
        components_of(first, n, rel),
        components_of(second, n, rel),
        0 <= g < first.len(),
        0 <= h < second.len(),
        exists|k: int, l: int|
            0 <= k < first[g]@.len() && 0 <= l < second[h]@.len() && #[trigger] first[g]@[k]
                == #[trigger] second[h]@[l],
    ensures
        first[g]@ == second[h]@,
{
    let (k0, l0) = choose|k: int, l: int|
        0 <= k < first[g]@.len() && 0 <= l < second[h]@.len() && #[trigger] first[g]@[k]
            == #[trigger] second[h]@[l];
    let root = first[g]@[k0] as int;
    assert forall|x: usize| first[g]@.contains(x) <==> second[h]@.contains(x) by {
        if first[g]@.contains(x) {
            let k = choose|k: int| 0 <= k < first[g]@.len() && first[g]@[k] == x;
            assert(connected(n, rel, first[g]@[k0] as int, first[g]@[k] as int));
            assert(first[g]@[k] < n);
            assert(in_some_group(second, x as int));
            let (hh, l) = choose|hh: int, l: int|
                0 <= hh < second.len() && 0 <= l < second[hh]@.len() && #[trigger] second[hh]@[l] == x;
            assert(connected(n, rel, second[h]@[l0] as int, second[hh]@[l] as int));
            assert(hh == h);
        }
        if second[h]@.contains(x) {
            let l = choose|l: int| 0 <= l < second[h]@.len() && second[h]@[l] == x;
            assert(connected(n, rel, second[h]@[l0] as int, second[h]@[l] as int));
            assert(second[h]@[l] < n);
            assert(in_some_group(first, x as int));
            let (gg, k) = choose|gg: int, k: int|
                0 <= gg < first.len() && 0 <= k < first[gg]@.len() && #[trigger] first[gg]@[k] == x;
            assert(connected(n, rel, first[g]@[k0] as int, first[gg]@[k] as int));
            assert(gg == g);
        }
    }
    crate::ordering::ascending_indices_determined(first[g]@, second[h]@);
}

proof fn components_agree(
    first: Seq<Vec<usize>>,
    second: Seq<Vec<usize>>,
    n: int,
    rel: spec_fn(int, int) -> bool,
    upto: int,
)
    requires
        components_of(first, n, rel),
        components_of(second, n, rel),
        0 <= upto <= first.len(),
    ensures
        upto <= second.len(),
        forall|g: int| 0 <= g < upto ==> (#[trigger] first[g])@ == second[g]@,
    decreases upto,
{
    if upto > 0 {
        components_agree(first, second, n, rel, upto - 1);
        let g = upto - 1;
        let x = first[g]@[0];
        assert(first[g]@[0] < n);
        assert(in_some_group(second, x as int));
        let (h, l) = choose|h: int, l: int|
            0 <= h < second.len() && 0 <= l < second[h]@.len() && #[trigger] second[h]@[l] == x;
        assert(first[g]@[0] == second[h]@[l]);
        same_members(first, second, n, rel, g, h);
        if h < g {
            assert(first[h]@ == second[h]@);
            assert(first[h]@[0] == first[g]@[0]);
        } else if h > g {
            let y = second[g]@[0];
            assert(second[g]@[0] < n);
            assert(in_some_group(first, y as int));
            let (gg, k) = choose|gg: int, k: int|
                0 <= gg < first.len() && 0 <= k < first[gg]@.len() && #[trigger] first[gg]@[k] == y;
            assert(first[gg]@[k] == second[g]@[0]);
            same_members(first, second, n, rel, gg, g);
            assert(second[g]@[0] < second[h]@[0]);
            assert(first[gg]@[0] < first[g]@[0]);
            if gg > g {
                assert(first[g]@[0] < first[gg]@[0]);
            }
            assert(gg < g);
            assert(first[gg]@ == second[gg]@);
            assert(second[gg]@[0] == second[g]@[0]);
        }
    }
}

/// Members of one group are joined by a walk inside the group.
pub proof fn component_inside(
    groups: Seq<Vec<usize>>,
    n: int,
    rel: spec_fn(int, int) -> bool,
    g: int,
    i: int,
    j: int,
    inner: spec_fn(int, int) -> bool,
)
    requires
        components_of(groups, n, rel),
        0 <= g < groups.len(),
        0 <= i < groups[g]@.len(),
        0 <= j < groups[g]@.len(),
        forall|x: int, y: int|
            0 <= x < groups[g]@.len() && 0 <= y < groups[g]@.len() && #[trigger] touch(
                rel,
                groups[g]@[x] as int,
                groups[g]@[y] as int,
            ) ==> touch(inner, x, y),
    ensures
        connected(groups[g]@.len() as int, inner, i, j),
{
    let group = groups[g]@;
    let (a, b) = (group[i] as int, group[j] as int);
    assert(connected(n, rel, groups[g]@[i] as int, groups[g]@[j] as int));
    let p = choose|p: Seq<int>| walk_between(n, rel, a, b, p);
    assert forall|k: int| 0 <= k < p.len() implies group.contains(#[trigger] p[k] as usize) by {
        let head = p.take(k + 1);
        assert(walk_between(n, rel, a, p[k], head)) by {
            assert forall|x: int, y: int|
                #![trigger head[x], head[y]]
                0 <= x < head.len() && y == x + 1 && y < head.len() implies touch(rel, head[x], head[y]) by {
                assert(touch(rel, p[x], p[y]));
            }
        }
        assert(0 <= p[k] < n);
        assert(in_some_group(groups, p[k]));
        let (h, l) = choose|h: int, l: int| 0 <= h < groups.len() && 0 <= l < groups[h]@.len() && #[trigger] groups[h]@[l] == p[k];
        assert(connected(n, rel, groups[g]@[i] as int, groups[h]@[l] as int));
        assert(h == g);
        assert(group[l] == p[k]);
    }
    let q = Seq::new(p.len(), |k: int| choose|l: int| 0 <= l < group.len() && #[trigger] group[l] == p[k]);
    assert forall|k: int| 0 <= k < q.len() implies 0 <= #[trigger] q[k] < group.len() && group[q[k]] == p[k] by {
        assert(group.contains(p[k] as usize));
        assert(in_some_group(groups, p[k]));
        let l = choose|l: int| 0 <= l < group.len() && group[l] == p[k] as usize;
        assert(group[l] == p[k]);
    }
    assert forall|x: int, y: int|
        #![trigger q[x], q[y]]
        0 <= x < q.len() && y == x + 1 && y < q.len() implies touch(inner, q[x], q[y]) by {
        assert(touch(rel, p[x], p[y]));
        assert(touch(rel, groups[g]@[q[x]] as int, groups[g]@[q[y]] as int));
    }
    assert(ascending_indices(group));
    assert(q[0] == i) by {
        assert(group[q[0]] == group[i]);
    }
    assert(q.last() == j) by {
        assert(group[q[q.len() - 1]] == group[j]);
    }
    assert(walk_between(group.len() as int, inner, i, j, q));
}

/// The relation of the pairs that were answered with yes.
pub open spec fn answered_relation(
    pairs: Seq<(usize, usize)>,
    answers: Seq<bool>,
) -> spec_fn(int, int) -> bool {
    |a: int, b: int|
        exists|k: int|
            0 <= k < pairs.len() && (#[trigger] pairs[k]).0 == a && pairs[k].1 == b && answers[k]
}

/// Groups items through the pairs that were answered with yes.
pub fn answered_groups(n: usize, pairs: &Vec<(usize, usize)>, answers: &Vec<bool>) -> (groups: Vec<
    Vec<usize>,
>)
    requires
        answers.len() == pairs.len(),
        forall|k: int| 0 <= k < pairs.len() ==> (#[trigger] pairs@[k]).0 < n && pairs@[k].1 < n,
    ensures
        components_of(groups@, n as int, answered_relation(pairs@, answers@)),
{
    let mut edges: Vec<(usize, usize)> = Vec::new();
    let mut k: usize = 0;
    while k < pairs.len()
        invariant
            k <= pairs.len(),
            answers.len() == pairs.len(),
            forall|m: int| 0 <= m < pairs.len() ==> (#[trigger] pairs@[m]).0 < n && pairs@[m].1 < n,
            forall|e: int|
                0 <= e < edges.len() ==> (#[trigger] edges@[e]).0 < n && edges@[e].1 < n
                    && answered_relation(pairs@, answers@)(edges@[e].0 as int, edges@[e].1 as int),
            forall|m: int| 0 <= m < k && answers@[m] ==> edges@.contains(#[trigger] pairs@[m]),
        decreases pairs.len() - k,
    {
        let ghost before = edges@;
        if answers[k] {
            edges.push(pairs[k]);
            proof {
                assert(edges@[edges.len() - 1] == pairs@[k as int]);
                assert(pairs@[k as int].0 < n);
                assert forall|x: (usize, usize)| before.contains(x) implies edges@.contains(x) by {
                    let m = choose|m: int| 0 <= m < before.len() && before[m] == x;
                    assert(edges@[m] == x);
                }
            }
        }
        k += 1;
    }
    let groups = connected_groups(n, &edges);
    proof {
        let rel = pair_relation(edges@);
        let wanted = answered_relation(pairs@, answers@);
        assert forall|a: int, b: int| rel(a, b) implies #[trigger] wanted(a, b) by {
            let e = choose|e: int|
                0 <= e < edges@.len() && #[trigger] edges@[e] == (a as usize, b as usize) && edges@[e].0
                    == a && edges@[e].1 == b;
            assert(wanted(edges@[e].0 as int, edges@[e].1 as int));
        }
        assert forall|a: int, b: int| wanted(a, b) implies #[trigger] rel(a, b) by {
            let m = choose|m: int|
                0 <= m < pairs@.len() && (#[trigger] pairs@[m]).0 == a && pairs@[m].1 == b && answers@[m];
            assert(edges@.contains(pairs@[m]));
            let e = choose|e: int| 0 <= e < edges@.len() && edges@[e] == pairs@[m];
            assert(edges@[e] == (a as usize, b as usize));
        }
        same_relation(groups@, n as int, rel, wanted);
    }
    groups
}

/// Relations that hold of the same pairs have the same components.
pub proof fn same_relation(
    groups: Seq<Vec<usize>>,
    n: int,
    rel: spec_fn(int, int) -> bool,
    other: spec_fn(int, int) -> bool,
)
    requires
        components_of(groups, n, rel),
        forall|a: int, b: int| rel(a, b) ==> #[trigger] other(a, b),
        forall|a: int, b: int| other(a, b) ==> #[trigger] rel(a, b),
    ensures
        components_of(groups, n, other),
{
    assert forall|x: int, y: int| 0 <= x < n && 0 <= y < n && #[trigger] touch(rel, x, y) implies connected(n, other, x, y) by {
        assert(rel(x, y) ==> other(x, y));
        assert(rel(y, x) ==> other(y, x));
        connected_step(n, other, x, y);
    }
    assert forall|x: int, y: int| 0 <= x < n && 0 <= y < n && #[trigger] touch(other, x, y) implies connected(n, rel, x, y) by {
        assert(other(x, y) ==> rel(x, y));
        assert(other(y, x) ==> rel(y, x));
        connected_step(n, rel, x, y);
    }
    components_transfer(groups, n, rel, other);
}

spec fn owners_of_labels(labels: Seq<Vec<u64>>, upto: int, slots: Map<u64, usize>, lists: Seq<Vec<usize>>) -> bool {
    &&& forall|x: u64| #[trigger] slots.dom().contains(x) ==> slots[x] < lists.len()
    &&& forall|x: u64, y: u64| #[trigger]
        slots.dom().contains(x) && #[trigger] slots.dom().contains(y) && x != y ==> slots[x] != slots[y]
    &&& forall|r: int, x: u64|
        0 <= r < upto && #[trigger] labels[r]@.contains(x) ==> slots.dom().contains(x) && lists[slots[x] as int]@.contains(r as usize)
    &&& forall|x: u64, m: int|
        slots.dom().contains(x) && 0 <= m < lists[slots[x] as int]@.len() ==> {
            let r = #[trigger] lists[slots[x] as int]@[m];
            r < labels.len() && labels[r as int]@.contains(x)
        }
}

/// All pairs, smaller index first, of items that carry a common label.
pub fn label_pairs(labels: &Vec<Vec<u64>>) -> (pairs: Vec<(usize, usize)>)
    ensures
        forall|a: usize, b: usize| #[trigger] pairs@.contains((a, b)) <==> a < b < labels.len()
            && share_label(labels@)(a as int, b as int),
{
    let mut slots = Registry::new();
    let mut lists: Vec<Vec<usize>> = Vec::new();
    let mut pairs: Vec<(usize, usize)> = Vec::new();
    let mut r: usize = 0;
    while r < labels.len()
        invariant
            r <= labels.len(),
            owners_of_labels(labels@, r as int, slots@, lists@),
            forall|x: u64, m: int|
                slots@.dom().contains(x) && 0 <= m < lists@[slots@[x] as int]@.len() ==> #[trigger] lists@[slots@[x] as int]@[m] < r,
            forall|k: int|
                0 <= k < pairs.len() ==> (#[trigger] pairs@[k]).0 < pairs@[k].1 < labels.len()
                    && share_label(labels@)(
                    pairs@[k].0 as int,
                    pairs@[k].1 as int,
                ),
            forall|a: usize, b: usize|
                a < b < r && share_label(labels@)(a as int, b as int)
                    ==> #[trigger] pairs@.contains((a, b)),
        decreases labels.len() - r,
    {
        let mut i: usize = 0;
        let ghost start = lists@;
        while i < labels[r].len()
            invariant
                r < labels.len(),
                i <= labels@[r as int]@.len(),
                owners_of_labels(labels@, r as int, slots@, lists@),
                forall|x: u64, m: int|
                    slots@.dom().contains(x) && 0 <= m < lists@[slots@[x] as int]@.len() ==> #[trigger] lists@[slots@[x] as int]@[m] <= r,
                forall|k: int|
                    0 <= k < i ==> slots@.dom().contains(#[trigger] labels@[r as int]@[k])
                        && lists@[slots@[labels@[r as int]@[k]] as int]@.contains(r),
                forall|k: int|
                    0 <= k < pairs.len() ==> (#[trigger] pairs@[k]).0 < pairs@[k].1 < labels.len()
                        && share_label(labels@)(
                        pairs@[k].0 as int,
                        pairs@[k].1 as int,
                    ),
                forall|a: usize, b: usize|
                    a < b < r && share_label(labels@)(a as int, b as int)
                        ==> #[trigger] pairs@.contains((a, b)),
                forall|a: usize, k: int|
                    a < r && 0 <= k < i && labels@[a as int]@.contains(#[trigger] labels@[r as int]@[k]) ==> #[trigger] pairs@.contains((a, r)),
            decreases labels@[r as int]@.len() - i,
        {
            let label: u64 = labels[r][i];
            assert(labels@[r as int]@.contains(label));
            let ghost slots0 = slots@;
            let ghost lists0 = lists@;
            let slot: usize = match slots.get(label) {
                Some(found) => found,
                None => {
                    let fresh: usize = lists.len();
                    slots.insert(label, fresh);
                    lists.push(Vec::new());
                    fresh
                },
            };
            let ghost lists1 = lists@;
            assert(owners_of_labels(labels@, r as int, slots@, lists@)) by {
                assert forall|s: int, x: u64| 0 <= s < r && #[trigger] labels@[s]@.contains(x) implies slots@.dom().contains(x) && lists@[slots@[x] as int]@.contains(s as usize) by {
                    assert(slots0.dom().contains(x));
                    assert(lists@[slots@[x] as int] == lists0[slots0[x] as int]);
                }
                assert forall|x: u64, m: int| slots@.dom().contains(x) && 0 <= m < lists@[slots@[x] as int]@.len() implies {
                    let s = #[trigger] lists@[slots@[x] as int]@[m];
                    s < labels.len() && labels@[s as int]@.contains(x)
                } by {
                    if slots0.dom().contains(x) {
                        assert(lists@[slots@[x] as int]@[m] == lists0[slots0[x] as int]@[m]);
                    }
                }
            }
            let mut m: usize = 0;
            while m < lists[slot].len()
                invariant
                    r < labels.len(),
                    slots@.dom().contains(label),
                    slot == slots@[label],
                    slot < lists.len(),
                    labels@[r as int]@.contains(label),
                    m <= lists@[slot as int]@.len(),
                    owners_of_labels(labels@, r as int, slots@, lists@),
                    forall|x: u64, m: int|
                        slots@.dom().contains(x) && 0 <= m < lists@[slots@[x] as int]@.len() ==> #[trigger] lists@[slots@[x] as int]@[m] <= r,
                    forall|k: int|
                        0 <= k < pairs.len() ==> (#[trigger] pairs@[k]).0 < pairs@[k].1 < labels.len()
                            && share_label(labels@)(
                            pairs@[k].0 as int,
                            pairs@[k].1 as int,
                        ),
                    forall|a: usize, b: usize|
                        a < b < r && share_label(labels@)(a as int, b as int)
                            ==> #[trigger] pairs@.contains((a, b)),
                    forall|a: usize, k: int|
                        a < r && 0 <= k < i && labels@[a as int]@.contains(#[trigger] labels@[r as int]@[k]) ==> #[trigger] pairs@.contains((a, r)),
                    forall|k: int| 0 <= k < m && lists@[slot as int]@[k] < r ==> pairs@.contains((#[trigger] lists@[slot as int]@[k], r)),
                decreases lists@[slot as int]@.len() - m,
            {
                let other: usize = lists[slot][m];
                let ghost known = pairs@;
                assert(lists@[slots@[label] as int]@[m as int] <= r);
                assert(labels@[other as int]@.contains(label));
                if other < r {
                    pairs.push((other, r));
                    proof {
                        assert(pairs@[pairs.len() - 1] == (other, r));
                        assert(share_label(labels@)(other as int, r as int));
                        assert forall|x: (usize, usize)| known.contains(x) implies #[trigger] pairs@.contains(x) by {
                            let k = choose|k: int| 0 <= k < known.len() && known[k] == x;
                            assert(pairs@[k] == x);
                        }
                    }
                }
                m += 1;
            }
            lists[slot].push(r);
            proof {
                assert(lists@[slot as int]@ == lists1[slot as int]@.push(r));
                assert forall|a: usize, k: int| a < r && 0 <= k < i + 1 && labels@[a as int]@.contains(#[trigger] labels@[r as int]@[k]) implies #[trigger] pairs@.contains((a, r)) by {
                    if k == i {
                        assert(lists1[slots@[label] as int]@.contains(a));
                        let q = choose|q: int| 0 <= q < lists1[slot as int]@.len() && lists1[slot as int]@[q] == a;
                        assert(lists1[slot as int]@[q] < r);
                    }
                }
                assert forall|s: int, x: u64| 0 <= s < r && #[trigger] labels@[s]@.contains(x) implies slots@.dom().contains(x) && lists@[slots@[x] as int]@.contains(s as usize) by {
                    assert(lists1[slots@[x] as int]@.contains(s as usize));
                    let q = choose|q: int| 0 <= q < lists1[slots@[x] as int]@.len() && lists1[slots@[x] as int]@[q] == s as usize;
                    assert(lists@[slots@[x] as int]@[q] == s as usize);
                }
                assert forall|x: u64, q: int| slots@.dom().contains(x) && 0 <= q < lists@[slots@[x] as int]@.len() implies {
                    let s = #[trigger] lists@[slots@[x] as int]@[q];
                    s < labels.len() && labels@[s as int]@.contains(x) && s <= r
                } by {
                    if slots@[x] != slot || q < lists1[slots@[x] as int]@.len() {
                        assert(lists@[slots@[x] as int]@[q] == lists1[slots@[x] as int]@[q]);
                    } else {
                        assert(x == label);
                    }
                }
                assert forall|k: int| 0 <= k < i + 1 implies slots@.dom().contains(#[trigger] labels@[r as int]@[k])
                        && lists@[slots@[labels@[r as int]@[k]] as int]@.contains(r) by {
                    let x = labels@[r as int]@[k];
                    if k < i {
                        assert(slots0.dom().contains(x));
                        assert(lists0[slots0[x] as int]@.contains(r));
                        let q = choose|q: int| 0 <= q < lists0[slots0[x] as int]@.len() && lists0[slots0[x] as int]@[q] == r;
                        assert(lists@[slots@[x] as int]@[q] == r);
                    } else {
                        assert(lists@[slot as int]@.last() == r);
                    }
                }
            }
            i += 1;
        }
        proof {
            assert forall|s: int, x: u64| 0 <= s < r + 1 && #[trigger] labels@[s]@.contains(x) implies slots@.dom().contains(x) && lists@[slots@[x] as int]@.contains(s as usize) by {
                if s == r {
                    let k = choose|k: int| 0 <= k < labels@[r as int]@.len() && labels@[r as int]@[k] == x;
                    assert(slots@.dom().contains(labels@[r as int]@[k]));
                }
            }
            assert forall|a: usize, b: usize| a < b < r + 1 && share_label(labels@)(a as int, b as int) implies #[trigger] pairs@.contains((a, b)) by {
                if b == r {
                    let x = choose|x: u64| #[trigger] labels@[a as int]@.contains(x) && labels@[b as int]@.contains(x);
                    let k = choose|k: int| 0 <= k < labels@[r as int]@.len() && labels@[r as int]@[k] == x;
                    assert(labels@[a as int]@.contains(labels@[r as int]@[k]));
                }
            }
        }
        r += 1;
    }
    pairs
}

/// The members of the first `upto` groups, one after the other.
pub open spec fn joined_groups(groups: Seq<Vec<usize>>, upto: int) -> Seq<usize>
    decreases upto,
{
    if upto <= 0 {
        Seq::empty()
    } else {
        joined_groups(groups, upto - 1) + groups[upto - 1]@
    }
}

proof fn joined_member(groups: Seq<Vec<usize>>, upto: int, k: int) -> (r: (int, int))
    requires
        0 <= upto <= groups.len(),
        0 <= k < joined_groups(groups, upto).len(),
    ensures
        0 <= r.0 < upto,
        0 <= r.1 < groups[r.0]@.len(),
        groups[r.0]@[r.1] == joined_groups(groups, upto)[k],
    decreases upto,
{
    let before = joined_groups(groups, upto - 1);
    if k < before.len() {
        joined_member(groups, upto - 1, k)
    } else {
        (upto - 1, k - before.len())
    }
}

proof fn joined_distinct(groups: Seq<Vec<usize>>, n: int, rel: spec_fn(int, int) -> bool, upto: int)
    requires
        components_of(groups, n, rel),
        0 <= upto <= groups.len(),
    ensures
        joined_groups(groups, upto).no_duplicates(),
    decreases upto,
{
    if upto > 0 {
        joined_distinct(groups, n, rel, upto - 1);
        let before = joined_groups(groups, upto - 1);
        let last = groups[upto - 1]@;
        let all = joined_groups(groups, upto);
        assert(ascending_indices(last));
        assert forall|i: int, j: int| 0 <= i < j < all.len() implies all[i] != all[j] by {
            if i < before.len() && j >= before.len() {
                let (g, k) = joined_member(groups, upto - 1, i);
                let l = j - before.len();
                assert(groups[upto - 1]@[l] == all[j]);
                if all[i] == all[j] {
                    connected_reflexive(n, rel, groups[g]@[k] as int);
                    assert(connected(n, rel, groups[g]@[k] as int, groups[upto - 1]@[l] as int));
                }
            } else if j < before.len() {
                assert(before[i] != before[j]);
            } else {
                assert(last[i - before.len()] < last[j - before.len()]);
            }
        }
    }
}

/// Components hold every item once: together they are as many as the items.
pub proof fn components_total(groups: Seq<Vec<usize>>, n: int, rel: spec_fn(int, int) -> bool)
    requires
        components_of(groups, n, rel),
        0 <= n,
    ensures
        joined_groups(groups, groups.len() as int).len() == n,
{
    let all = joined_groups(groups, groups.len() as int);
    joined_distinct(groups, n, rel, groups.len() as int);
    let seen = all.map_values(|x: usize| x as int);
    assert(seen.no_duplicates());
    seen.unique_seq_to_set();
    let range = vstd::set_lib::set_int_range(0, n);
    vstd::set_lib::lemma_int_range(0, n);
    assert(seen.to_set() =~= range) by {
        assert forall|x: int| seen.to_set().contains(x) <==> range.contains(x) by {
            if seen.to_set().contains(x) {
                let k = choose|k: int| 0 <= k < seen.len() && seen[k] == x;
                let (g, l) = joined_member(groups, groups.len() as int, k);
                assert(groups[g]@[l] < n);
            }
            if range.contains(x) {
                assert(in_some_group(groups, x));
                let (g, l) = choose|g: int, l: int| 0 <= g < groups.len() && 0 <= l < groups[g]@.len() && #[trigger] groups[g]@[l] == x;
                let k = joined_position(groups, groups.len() as int, g, l);
                assert(seen[k] == x);
            }
        }
    }
}

proof fn joined_position(groups: Seq<Vec<usize>>, upto: int, g: int, l: int) -> (k: int)
    requires
        0 <= g < upto <= groups.len(),
        0 <= l < groups[g]@.len(),
    ensures
        0 <= k < joined_groups(groups, upto).len(),
        joined_groups(groups, upto)[k] == groups[g]@[l],
    decreases upto,
{
    if g == upto - 1 {
        joined_groups(groups, upto - 1).len() as int + l
    } else {
        joined_position(groups, upto - 1, g, l)
    }
}

/// Items that touch are in one group.
pub proof fn related_in_one_group(groups: Seq<Vec<usize>>, n: int, rel: spec_fn(int, int) -> bool, a: int, b: int)
    requires
        components_of(groups, n, rel),
        0 <= a < n <= usize::MAX,
        0 <= b < n,
        rel(a, b) || rel(b, a),
    ensures
        exists|g: int| 0 <= g < groups.len() && #[trigger] groups[g]@.contains(a as usize) && groups[g]@.contains(b as usize),
{
    assert(in_some_group(groups, a) && in_some_group(groups, b));
    let (g, k) = choose|g: int, k: int| 0 <= g < groups.len() && 0 <= k < groups[g]@.len() && #[trigger] groups[g]@[k] == a;
    let (h, l) = choose|h: int, l: int| 0 <= h < groups.len() && 0 <= l < groups[h]@.len() && #[trigger] groups[h]@[l] == b;
    connected_step(n, rel, a, b);
    assert(connected(n, rel, groups[g]@[k] as int, groups[h]@[l] as int));
    assert(groups[g]@.contains(a as usize));
    assert(groups[h]@.contains(b as usize));
}

/// Where nothing touches across a division of the items, no group reaches across it.
pub proof fn groups_do_not_cross(
    groups: Seq<Vec<usize>>,
    n: int,
    rel: spec_fn(int, int) -> bool,
    inside: spec_fn(int) -> bool,
    g: int,
    k: int,
    l: int,
)
    requires
        components_of(groups, n, rel),
        0 <= g < groups.len(),
        0 <= k < groups[g]@.len(),
        0 <= l < groups[g]@.len(),
        inside(groups[g]@[k] as int),
        forall|x: int, y: int| 0 <= x < n && 0 <= y < n && inside(x) && #[trigger] touch(rel, x, y) ==> inside(y),
    ensures
        inside(groups[g]@[l] as int),
{
    assert(connected(n, rel, groups[g]@[k] as int, groups[g]@[l] as int));
    connected_closed(n, rel, groups[g]@[k] as int, groups[g]@[l] as int, inside);
}

} // verus!
