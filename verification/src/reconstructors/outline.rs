//! Contours of connected faces, traced along their open half edges.
use vstd::prelude::*;
use crate::ordering::{ascending, find_id};
use crate::table::HashTable;

verus! {

/// A side of a face with its direction.
pub type HalfEdge = (u32, u32);

pub open spec fn half_edge(nodes: Seq<u32>, i: int) -> HalfEdge {
    (nodes[i], nodes[if i + 1 < nodes.len() {
        i + 1
    } else {
        0
    }])
}

pub open spec fn face_halves(nodes: Seq<u32>, upto: int) -> Seq<HalfEdge>
    decreases upto,
{
    if upto <= 0 {
        Seq::empty()
    } else {
        face_halves(nodes, upto - 1).push(half_edge(nodes, upto - 1))
    }
}

/// The half edges of the first faces.
pub open spec fn half_edges(faces: Seq<Vec<u32>>, upto: int) -> Seq<HalfEdge>
    decreases upto,
{
    if upto <= 0 {
        Seq::empty()
    } else {
        half_edges(faces, upto - 1) + face_halves(faces[upto - 1]@, faces[upto - 1]@.len() as int)
    }
}

/// A half edge with no face on its other side.
pub open spec fn open_half(halves: Seq<HalfEdge>, half: HalfEdge) -> bool {
    halves.contains(half) && !halves.contains((half.1, half.0))
}

/// No half edge occurs twice, and where one open half edge ends exactly one begins.
pub open spec fn traceable(halves: Seq<HalfEdge>) -> bool {
    &&& halves.no_duplicates()
    &&& exists|half: HalfEdge| #[trigger] open_half(halves, half)
    &&& forall|a: HalfEdge, b: HalfEdge| #[trigger]
        open_half(halves, a) && #[trigger] open_half(halves, b) && (a.0 == b.0 || a.1 == b.1) ==> a == b
    &&& forall|a: HalfEdge| #[trigger] open_half(halves, a) ==> starts_somewhere(halves, a.1)
}

pub open spec fn starts_somewhere(halves: Seq<HalfEdge>, node: u32) -> bool {
    exists|half: HalfEdge| #[trigger] open_half(halves, half) && half.0 == node
}

/// A closed contour. It begins with its least node.
pub open spec fn contour(ring: Seq<u32>, halves: Seq<HalfEdge>) -> bool {
    &&& ring.len() > 0
    &&& ring.no_duplicates()
    &&& forall|k: int| 0 <= k < ring.len() ==> open_half(halves, #[trigger] half_edge(ring, k))
    &&& forall|k: int| 0 <= k < ring.len() ==> ring[0] <= #[trigger] ring[k]
}

pub open spec fn on_contour(rings: Seq<Vec<u32>>, node: u32) -> bool {
    exists|r: int| 0 <= r < rings.len() && #[trigger] rings[r]@.contains(node)
}

/// The contours that the open half edges form, by their least nodes.
pub open spec fn contours(rings: Seq<Vec<u32>>, halves: Seq<HalfEdge>) -> bool {
    &&& forall|r: int| 0 <= r < rings.len() ==> contour((#[trigger] rings[r])@, halves)
    &&& forall|half: HalfEdge| #[trigger] open_half(halves, half) ==> on_contour(rings, half.0)
    &&& forall|r: int, s: int|
        0 <= r < s < rings.len() ==> (#[trigger] rings[r])@[0] < (#[trigger] rings[s])@[0]
}

#[verifier::loop_isolation(false)]
fn list_halves(faces: &Vec<Vec<u32>>) -> (r: Vec<HalfEdge>)
    ensures
        r@ == half_edges(faces@, faces@.len() as int),
{
    let mut r: Vec<HalfEdge> = Vec::new();
    let mut f: usize = 0;
    while f < faces.len()
        invariant
            f <= faces@.len(),
            r@ == half_edges(faces@, f as int),
        decreases faces@.len() - f,
    {
        let nodes = &faces[f];
        let ghost start = r@;
        let mut i: usize = 0;
        assert(r@ =~= start + face_halves(nodes@, 0));
        while i < nodes.len()
            invariant
                i <= nodes@.len(),
                r@ == start + face_halves(nodes@, i as int),
            decreases nodes@.len() - i,
        {
            let next: usize = if i + 1 < nodes.len() {
                i + 1
            } else {
                0
            };
            r.push((nodes[i], nodes[next]));
            assert(r@ =~= start + face_halves(nodes@, i + 1));
            i += 1;
        }
        f += 1;
    }
    r
}

spec fn number(half: HalfEdge) -> int {
    half.0 * 0x1_0000_0000 + half.1
}

fn half_number(half: HalfEdge) -> (r: i128)
    ensures
        r == number(half),
{
    (half.0 as i128) * 0x1_0000_0000 + (half.1 as i128)
}

proof fn number_injective(a: HalfEdge, b: HalfEdge)
    requires
        number(a) == number(b),
    ensures
        a == b,
{
    assert(a.0 == b.0 && a.1 == b.1) by (nonlinear_arith)
        requires
            a.0 * 0x1_0000_0000 + a.1 == b.0 * 0x1_0000_0000 + b.1,
            0 <= a.1 < 0x1_0000_0000,
            0 <= b.1 < 0x1_0000_0000,
    ;
}

spec fn half_with(halves: Seq<HalfEdge>, value: i128) -> bool {
    exists|h: int| 0 <= h < halves.len() && number(#[trigger] halves[h]) == value
}

spec fn passed(keys: Seq<i128>, upto: int, half: HalfEdge) -> bool {
    exists|j: int| 0 <= j < upto && #[trigger] keys[j] == number(half)
}

spec fn placed(starts: Seq<u32>, ends: Seq<u32>, half: HalfEdge) -> bool {
    exists|m: int| 0 <= m < starts.len() && #[trigger] starts[m] == half.0 && ends[m] == half.1
}

/// The numbers of half edges, ascending.
spec fn numbered(keys: Seq<i128>, halves: Seq<HalfEdge>) -> bool {
    &&& crate::ordering::ascending_keys(keys)
    &&& forall|k: int| 0 <= k < keys.len() ==> half_with(halves, #[trigger] keys[k])
    &&& forall|h: int| 0 <= h < halves.len() ==> keys.contains(number(#[trigger] halves[h]) as i128)
}

fn half_key(half: HalfEdge) -> (r: u64)
    ensures
        r == number(half),
{
    assert(0 <= half.0 * 0x1_0000_0000 <= 0xffff_ffff * 0x1_0000_0000) by (nonlinear_arith)
        requires
            0 <= half.0 <= 0xffff_ffff,
    ;
    (half.0 as u64) * 0x1_0000_0000 + (half.1 as u64)
}

/// The table holds the number of every half edge, and no other.
spec fn tabulated(table: HashTable, halves: Seq<HalfEdge>, upto: int) -> bool {
    forall|value: u64| #[trigger]
        table@.dom().contains(value) <==> exists|h: int| 0 <= h < upto && number(#[trigger] halves[h]) == value
}

#[verifier::loop_isolation(false)]
fn tabulate_halves(halves: &Vec<HalfEdge>) -> (table: HashTable)
    ensures
        tabulated(table, halves@, halves@.len() as int),
{
    let mut table = HashTable::new();
    let mut k: usize = 0;
    while k < halves.len()
        invariant
            k <= halves@.len(),
            tabulated(table, halves@, k as int),
        decreases halves@.len() - k,
    {
        let ghost known = table@;
        let key: u64 = half_key(halves[k]);
        table.insert(key, k);
        assert forall|value: u64| #[trigger] table@.dom().contains(value) <==> exists|h: int| 0 <= h < k + 1 && number(#[trigger] halves@[h]) == value by {
            if value == key {
                assert(number(halves@[k as int]) == value);
            }
            assert(known.dom().contains(value) || value == key <==> table@.dom().contains(value));
        }
        k += 1;
    }
    table
}

fn lists_half(table: &HashTable, half: HalfEdge, Ghost(halves): Ghost<Seq<HalfEdge>>) -> (r: bool)
    requires
        tabulated(*table, halves, halves.len() as int),
    ensures
        r == halves.contains(half),
{
    let wanted: u64 = half_key(half);
    let r = table.contains_key(wanted);
    proof {
        if r {
            let h = choose|h: int| 0 <= h < halves.len() && number(#[trigger] halves[h]) == wanted;
            number_injective(halves[h], half);
            assert(halves[h] == half);
        } else if halves.contains(half) {
            let h = choose|h: int| 0 <= h < halves.len() && halves[h] == half;
            assert(number(halves[h]) == wanted);
        }
    }
    r
}

#[verifier::loop_isolation(false)]
fn number_halves(halves: &Vec<HalfEdge>) -> (r: Vec<i128>)
    ensures
        numbered(r@, halves@),
        r@.len() <= halves@.len(),
{
    let mut all: Vec<i128> = Vec::new();
    let mut k: usize = 0;
    while k < halves.len()
        invariant
            k <= halves@.len(),
            all@.len() == k,
            forall|h: int| 0 <= h < k ==> #[trigger] all@[h] == number(halves@[h]),
        decreases halves@.len() - k,
    {
        all.push(half_number(halves[k]));
        k += 1;
    }
    let ghost listed = all@;
    let r = crate::ordering::unique_keys(all);
    proof {
        assert forall|i: int| 0 <= i < r@.len() implies half_with(halves@, #[trigger] r@[i]) by {
            assert(r@.contains(r@[i]));
            assert(listed.contains(r@[i]));
            let h = choose|h: int| 0 <= h < listed.len() && listed[h] == r@[i];
            assert(number(halves@[h]) == r@[i]);
        }
        assert forall|h: int| 0 <= h < halves@.len() implies r@.contains(number(#[trigger] halves@[h]) as i128) by {
            assert(listed[h] == number(halves@[h]));
            assert(listed.contains(listed[h]));
        }
    }
    r
}

/// As many distinct numbers as half edges means that no half edge is repeated.
proof fn distinct_when_full(keys: Seq<i128>, halves: Seq<HalfEdge>)
    requires
        numbered(keys, halves),
    ensures
        keys.len() == halves.len() <==> halves.no_duplicates(),
{
    let values = Seq::new(halves.len(), |h: int| number(halves[h]) as i128);
    keys.unique_seq_to_set();
    assert(keys.no_duplicates());
    assert(keys.to_set() =~= values.to_set()) by {
        assert forall|x: i128| keys.to_set().contains(x) <==> values.to_set().contains(x) by {
            if keys.contains(x) {
                let k = choose|k: int| 0 <= k < keys.len() && keys[k] == x;
                assert(half_with(halves, keys[k]));
                let h = choose|h: int| 0 <= h < halves.len() && number(#[trigger] halves[h]) == keys[k];
                assert(values[h] == x);
            }
            if values.contains(x) {
                let h = choose|h: int| 0 <= h < values.len() && values[h] == x;
                assert(keys.contains(number(halves[h]) as i128));
            }
        }
    }
    if halves.no_duplicates() {
        assert forall|i: int, j: int| 0 <= i < values.len() && 0 <= j < values.len() && i != j implies values[i] != values[j] by {
            if values[i] == values[j] {
                number_injective(halves[i], halves[j]);
            }
        }
        values.unique_seq_to_set();
    } else {
        if keys.len() == halves.len() {
            values.lemma_no_dup_set_cardinality();
            assert forall|i: int, j: int| 0 <= i < halves.len() && 0 <= j < halves.len() && i != j implies halves[i] != halves[j] by {
                assert(values[i] != values[j]);
            }
        }
    }
}

/// The open half edges in the order of their first nodes: where each begins and
/// ends.
struct OpenEdges {
    starts: Vec<u32>,
    ends: Vec<u32>,
}

spec fn opened(edges: OpenEdges, halves: Seq<HalfEdge>) -> bool {
    &&& edges.starts@.len() == edges.ends@.len()
    &&& ascending(edges.starts@)
    &&& forall|k: int| 0 <= k < edges.starts@.len() ==> open_half(halves, (#[trigger] edges.starts@[k], edges.ends@[k]))
    &&& forall|half: HalfEdge| #[trigger] open_half(halves, half) ==> edges.starts@.contains(half.0)
}

/// Collects the open half edges, unless two begin at one node.
#[verifier::rlimit(40)]
#[verifier::loop_isolation(false)]
fn open_edges(halves: &Vec<HalfEdge>, keys: &Vec<i128>, table: &HashTable) -> (r: Option<OpenEdges>)
    requires
        tabulated(*table, halves@, halves@.len() as int),
        numbered(keys@, halves@),
    ensures
        match r {
            Some(edges) => opened(edges, halves@) && forall|a: HalfEdge, b: HalfEdge| #[trigger]
                open_half(halves@, a) && #[trigger] open_half(halves@, b) && a.0 == b.0 ==> a == b,
            None => exists|a: HalfEdge, b: HalfEdge| #[trigger]
                open_half(halves@, a) && #[trigger] open_half(halves@, b) && a.0 == b.0 && a != b,
        },
{
    let mut starts: Vec<u32> = Vec::new();
    let mut ends: Vec<u32> = Vec::new();
    let mut k: usize = 0;
    while k < keys.len()
        invariant
            k <= keys@.len(),
            starts@.len() == ends@.len(),
            ascending(starts@),
            forall|m: int| 0 <= m < starts@.len() ==> open_half(halves@, (#[trigger] starts@[m], ends@[m])),
            forall|m: int| 0 <= m < starts@.len() ==> passed(keys@, k as int, (#[trigger] starts@[m], ends@[m])),
            forall|half: HalfEdge| #[trigger] open_half(halves@, half) && passed(keys@, k as int, half) ==> placed(starts@, ends@, half),
        decreases keys@.len() - k,
    {
        let value: i128 = keys[k];
        proof {
            assert(half_with(halves@, keys@[k as int]));
            let h = choose|h: int| 0 <= h < halves@.len() && number(#[trigger] halves@[h]) == keys@[k as int];
            let half = halves@[h];
            assert(value / 0x1_0000_0000 == half.0 && value % 0x1_0000_0000 == half.1) by (nonlinear_arith)
                requires
                    value == half.0 * 0x1_0000_0000 + half.1,
                    0 <= half.1 < 0x1_0000_0000,
                    0 <= half.0 < 0x1_0000_0000,
            ;
        }
        let a: u32 = (value / 0x1_0000_0000) as u32;
        let b: u32 = (value % 0x1_0000_0000) as u32;
        let ghost own: HalfEdge = (a, b);
        assert(number(own) == value);
        assert(halves@.contains(own)) by {
            assert(half_with(halves@, keys@[k as int]));
            let h = choose|h: int| 0 <= h < halves@.len() && number(#[trigger] halves@[h]) == keys@[k as int];
            number_injective(halves@[h], own);
        }
        let ghost before_starts = starts@;
        let ghost before_ends = ends@;
        if !lists_half(table, (b, a), Ghost(halves@)) {
            assert(open_half(halves@, own));
            if starts.len() > 0 && starts[starts.len() - 1] == a {
                proof {
                    let m = starts@.len() - 1;
                    let other: HalfEdge = (starts@[m], ends@[m]);
                    assert(passed(keys@, k as int, (starts@[m], ends@[m])));
                    let j = choose|j: int| 0 <= j < k && #[trigger] keys@[j] == number((starts@[m], ends@[m]));
                    assert(keys@[j] < keys@[k as int]);
                    assert(open_half(halves@, other));
                    assert(other != own);
                }
                return None;
            }
            proof {
                if starts@.len() > 0 {
                    let m = starts@.len() - 1;
                    assert(passed(keys@, k as int, (starts@[m], ends@[m])));
                    let j = choose|j: int| 0 <= j < k && #[trigger] keys@[j] == number((starts@[m], ends@[m]));
                    assert(keys@[j] < keys@[k as int]);
                    assert(starts@[m] <= a) by (nonlinear_arith)
                        requires
                            starts@[m] * 0x1_0000_0000 + ends@[m] < a * 0x1_0000_0000 + b,
                            0 <= ends@[m],
                            b < 0x1_0000_0000,
                    ;
                }
            }
            starts.push(a);
            ends.push(b);
            proof {
                let last = before_starts.len() as int;
                assert(starts@[last] == a && ends@[last] == b);
                assert forall|i: int, j: int| 0 <= i < j < starts@.len() implies starts@[i] < starts@[j] by {
                    if j == last && i < last - 1 {
                        assert(before_starts[i] < before_starts[last - 1]);
                    }
                }
            }
        }
        proof {
            assert forall|m: int| 0 <= m < starts@.len() implies open_half(halves@, (#[trigger] starts@[m], ends@[m])) by {
                if m < before_starts.len() {
                    assert(starts@[m] == before_starts[m] && ends@[m] == before_ends[m]);
                }
            }
            assert forall|m: int| 0 <= m < starts@.len() implies passed(keys@, k + 1, (#[trigger] starts@[m], ends@[m])) by {
                if m < before_starts.len() {
                    assert(starts@[m] == before_starts[m] && ends@[m] == before_ends[m]);
                    assert(passed(keys@, k as int, (before_starts[m], before_ends[m])));
                    let j = choose|j: int| 0 <= j < k && #[trigger] keys@[j] == number((before_starts[m], before_ends[m]));
                    assert(keys@[j] == number((starts@[m], ends@[m])));
                } else {
                    assert(keys@[k as int] == number((starts@[m], ends@[m])));
                }
            }
            assert forall|half: HalfEdge| #[trigger] open_half(halves@, half) && passed(keys@, k + 1, half) implies placed(starts@, ends@, half) by {
                let j = choose|j: int| 0 <= j < k + 1 && #[trigger] keys@[j] == number(half);
                if j < k {
                    assert(passed(keys@, k as int, half));
                    assert(placed(before_starts, before_ends, half));
                    let m = choose|m: int| 0 <= m < before_starts.len() && #[trigger] before_starts[m] == half.0 && before_ends[m] == half.1;
                    assert(starts@[m] == half.0 && ends@[m] == half.1);
                } else {
                    number_injective(half, own);
                    assert(starts@[before_starts.len() as int] == half.0);
                }
            }
        }
        k += 1;
    }
    let edges = OpenEdges { starts, ends };
    proof {
        assert forall|half: HalfEdge| #[trigger] open_half(halves@, half) implies placed(edges.starts@, edges.ends@, half) by {
            let h = choose|h: int| 0 <= h < halves@.len() && halves@[h] == half;
            assert(keys@.contains(number(halves@[h]) as i128));
            let j = choose|j: int| 0 <= j < keys@.len() && keys@[j] == number(half) as i128;
            assert(keys@[j] == number(half));
            assert(passed(keys@, k as int, half));
        }
        assert forall|half: HalfEdge| #[trigger] open_half(halves@, half) implies edges.starts@.contains(half.0) by {
            assert(placed(edges.starts@, edges.ends@, half));
        }
        assert forall|a: HalfEdge, b: HalfEdge| #[trigger] open_half(halves@, a) && #[trigger] open_half(halves@, b) && a.0 == b.0 implies a == b by {
            assert(placed(edges.starts@, edges.ends@, a));
            assert(placed(edges.starts@, edges.ends@, b));
            let m = choose|m: int| 0 <= m < edges.starts@.len() && #[trigger] edges.starts@[m] == a.0 && edges.ends@[m] == a.1;
            let o = choose|o: int| 0 <= o < edges.starts@.len() && #[trigger] edges.starts@[o] == b.0 && edges.ends@[o] == b.1;
            if m < o {
                assert(edges.starts@[m] < edges.starts@[o]);
            } else if o < m {
                assert(edges.starts@[o] < edges.starts@[m]);
            }
        }
    }
    Some(edges)
}

/// Successors that lead from every place to another one and to none twice.
spec fn permutes(next: Seq<usize>) -> bool {
    &&& forall|i: int| 0 <= i < next.len() ==> #[trigger] next[i] < next.len()
    &&& forall|i: int, j: int|
        0 <= i < next.len() && 0 <= j < next.len() && #[trigger] next[i] == #[trigger] next[j] ==> i == j
}

spec fn follows(cycle: Seq<usize>, next: Seq<usize>) -> bool {
    &&& cycle.len() > 0
    &&& cycle.no_duplicates()
    &&& forall|k: int| 0 <= k < cycle.len() ==> #[trigger] cycle[k] < next.len()
    &&& forall|k: int| 0 <= k < cycle.len() - 1 ==> next[#[trigger] cycle[k] as int] == cycle[k + 1]
}

spec fn closed_cycle(cycle: Seq<usize>, next: Seq<usize>) -> bool {
    follows(cycle, next) && next[cycle.last() as int] == cycle[0] && forall|k: int|
        0 <= k < cycle.len() ==> cycle[0] <= #[trigger] cycle[k]
}

/// Visited places form whole cycles: nothing leads from outside into them.
spec fn sealed(visited: Seq<bool>, next: Seq<usize>) -> bool {
    &&& visited.len() == next.len()
    &&& forall|i: int| 0 <= i < next.len() ==> visited[i] == visited[#[trigger] next[i] as int]
}

/// The cycle through a place that was not visited.
#[verifier::rlimit(40)]
#[verifier::loop_isolation(false)]
fn cycle_from(next: &Vec<usize>, start: usize, visited: &Vec<bool>) -> (r: Vec<usize>)
    requires
        permutes(next@),
        sealed(visited@, next@),
        start < next@.len(),
        !visited@[start as int],
        forall|i: int| 0 <= i < start ==> visited@[i],
    ensures
        closed_cycle(r@, next@),
        r@[0] == start,
        forall|k: int| 0 <= k < r@.len() ==> !visited@[#[trigger] r@[k] as int],
{
    let mut r: Vec<usize> = Vec::new();
    r.push(start);
    let mut current: usize = next[start];
    while current != start
        invariant
            follows(r@, next@),
            r@[0] == start,
            current < next@.len(),
            current == next@[r@.last() as int],
            forall|k: int| 0 <= k < r@.len() ==> !visited@[#[trigger] r@[k] as int],
        decreases next@.len() - r@.len(),
    {
        proof {
            let last = r@.last() as int;
            assert(!visited@[last]);
            assert(visited@[last] == visited@[next@[last] as int]);
            assert forall|k: int| 0 <= k < r@.len() implies r@[k] != current by {
                if r@[k] == current && k > 0 {
                    assert(next@[r@[k - 1] as int] == r@[k]);
                    assert(next@[r@[k - 1] as int] == next@[last]);
                    assert(r@[k - 1] == last);
                    assert(r@[k - 1] == r@[r@.len() - 1]);
                }
            }
        }
        let ghost before = r@;
        r.push(current);
        proof {
            assert(r@.no_duplicates());
            assert forall|k: int| 0 <= k < r@.len() - 1 implies next@[#[trigger] r@[k] as int] == r@[k + 1] by {
                if k < before.len() - 1 {
                    assert(before[k] == r@[k] && before[k + 1] == r@[k + 1]);
                    assert(next@[before[k] as int] == before[k + 1]);
                }
            }
            assert forall|k: int| 0 <= k < r@.len() implies !visited@[#[trigger] r@[k] as int] by {
                if k < before.len() {
                    assert(before[k] == r@[k]);
                }
            }
            bounded_distinct(r@, next@.len() as int);
        }
        current = next[current];
    }
    assert forall|k: int| 0 <= k < r@.len() implies r@[0] <= #[trigger] r@[k] by {
        if r@[k] < start {
            assert(visited@[r@[k] as int]);
        }
    }
    r
}

proof fn bounded_distinct(list: Seq<usize>, n: int)
    requires
        list.no_duplicates(),
        forall|k: int| 0 <= k < list.len() ==> #[trigger] list[k] < n,
        0 <= n,
    ensures
        list.len() <= n,
{
    let values = Seq::new(list.len(), |k: int| list[k] as int);
    let all = vstd::set_lib::set_int_range(0, n);
    vstd::set_lib::lemma_int_range(0, n);
    values.unique_seq_to_set();
    assert(values.to_set().subset_of(all)) by {
        assert forall|x: int| values.to_set().contains(x) implies all.contains(x) by {
            let k = choose|k: int| 0 <= k < values.len() && values[k] == x;
            assert(list[k] < n);
        }
    }
    vstd::set_lib::lemma_len_subset(values.to_set(), all);
}

spec fn in_cycles(cycles: Seq<Vec<usize>>, i: usize) -> bool {
    exists|c: int| 0 <= c < cycles.len() && #[trigger] cycles[c]@.contains(i)
}

spec fn cycles_of(cycles: Seq<Vec<usize>>, next: Seq<usize>) -> bool {
    &&& forall|c: int| 0 <= c < cycles.len() ==> closed_cycle((#[trigger] cycles[c])@, next)
    &&& forall|i: usize| i < next.len() ==> #[trigger] in_cycles(cycles, i)
    &&& forall|c: int, d: int|
        0 <= c < d < cycles.len() ==> (#[trigger] cycles[c])@[0] < (#[trigger] cycles[d])@[0]
}

/// All cycles of successors, by their least places.
#[verifier::rlimit(40)]
#[verifier::loop_isolation(false)]
fn all_cycles(next: &Vec<usize>) -> (r: Vec<Vec<usize>>)
    requires
        permutes(next@),
    ensures
        cycles_of(r@, next@),
{
    let mut visited: Vec<bool> = Vec::new();
    let mut k: usize = 0;
    while k < next.len()
        invariant
            k <= next@.len(),
            visited@.len() == k,
            forall|i: int| 0 <= i < k ==> !#[trigger] visited@[i],
        decreases next@.len() - k,
    {
        visited.push(false);
        k += 1;
    }
    let mut r: Vec<Vec<usize>> = Vec::new();
    let mut start: usize = 0;
    while start < next.len()
        invariant
            start <= next@.len(),
            sealed(visited@, next@),
            forall|i: int| 0 <= i < start ==> #[trigger] visited@[i],
            forall|c: int| 0 <= c < r@.len() ==> closed_cycle((#[trigger] r@[c])@, next@) && r@[c]@[0] < start,
            forall|i: usize| i < next@.len() && #[trigger] visited@[i as int] ==> in_cycles(r@, i),
            forall|c: int, d: int| 0 <= c < d < r@.len() ==> (#[trigger] r@[c])@[0] < (#[trigger] r@[d])@[0],
        decreases next@.len() - start,
    {
        if !visited[start] {
            let cycle = cycle_from(next, start, &visited);
            let ghost before = visited@;
            let ghost earlier = r@;
            let mut m: usize = 0;
            while m < cycle.len()
                invariant
                    m <= cycle@.len(),
                    visited@.len() == next@.len(),
                    forall|i: int| 0 <= i < next@.len() ==> #[trigger] visited@[i] == (before[i] || cycle@.take(m as int).contains(i as usize)),
                decreases cycle@.len() - m,
            {
                let place: usize = cycle[m];
                let ghost so_far = visited@;
                assert(cycle@[m as int] < next@.len());
                visited.set(place, true);
                proof {
                    let longer = cycle@.take(m + 1);
                    assert(longer =~= cycle@.take(m as int).push(place));
                    assert forall|i: int| 0 <= i < next@.len() implies #[trigger] visited@[i] == (before[i] || longer.contains(i as usize)) by {
                        if i == place {
                            assert(longer[m as int] == place);
                        } else {
                            assert(so_far[i] == (before[i] || cycle@.take(m as int).contains(i as usize)));
                            if longer.contains(i as usize) {
                                let q = choose|q: int| 0 <= q < longer.len() && longer[q] == i as usize;
                                assert(cycle@.take(m as int)[q] == i as usize);
                            }
                            if cycle@.take(m as int).contains(i as usize) {
                                let q = choose|q: int| 0 <= q < m && cycle@.take(m as int)[q] == i as usize;
                                assert(longer[q] == i as usize);
                            }
                        }
                    }
                }
                m += 1;
            }
            assert(cycle@.take(m as int) =~= cycle@);
            r.push(cycle);
            proof {
                assert forall|i: int| 0 <= i < next@.len() implies visited@[i] == visited@[#[trigger] next@[i] as int] by {
                    assert(before[i] == before[next@[i] as int]);
                    assert(next@[i] < next@.len());
                    if cycle@.contains(i as usize) {
                        let q = choose|q: int| 0 <= q < cycle@.len() && cycle@[q] == i as usize;
                        if q + 1 < cycle@.len() {
                            assert(next@[cycle@[q] as int] == cycle@[q + 1]);
                            assert(cycle@.contains(next@[i]));
                        } else {
                            assert(cycle@.contains(cycle@[0]));
                        }
                    }
                    if cycle@.contains(next@[i]) {
                        let q = choose|q: int| 0 <= q < cycle@.len() && cycle@[q] == next@[i];
                        if q > 0 {
                            assert(next@[cycle@[q - 1] as int] == cycle@[q]);
                            assert(next@[cycle@[q - 1] as int] == next@[i]);
                            assert(cycle@[q - 1] == i);
                            assert(cycle@.contains(i as usize));
                        } else {
                            assert(next@[cycle@.last() as int] == next@[i]);
                            assert(cycle@.last() == i);
                            assert(cycle@.contains(i as usize));
                        }
                    }
                }
                assert forall|i: usize| i < next@.len() && #[trigger] visited@[i as int] implies in_cycles(r@, i) by {
                    if cycle@.contains(i) {
                        assert(r@[earlier.len() as int]@.contains(i));
                    } else {
                        assert(before[i as int]);
                        assert(in_cycles(earlier, i));
                        let c = choose|c: int| 0 <= c < earlier.len() && #[trigger] earlier[c]@.contains(i);
                        assert(r@[c]@.contains(i));
                    }
                }
                assert forall|c: int| 0 <= c < r@.len() implies closed_cycle((#[trigger] r@[c])@, next@) && r@[c]@[0] < start + 1 by {
                    if c < earlier.len() {
                        assert(r@[c] == earlier[c]);
                    }
                }
                assert forall|c: int, d: int| 0 <= c < d < r@.len() implies (#[trigger] r@[c])@[0] < (#[trigger] r@[d])@[0] by {
                    assert(r@[c] == earlier[c]);
                    if d < earlier.len() {
                        assert(r@[d] == earlier[d]);
                    }
                }
                assert(visited@[start as int]) by {
                    assert(cycle@[0] == start);
                    assert(cycle@.contains(start));
                }
            }
        }
        start += 1;
    }
    assert forall|i: usize| i < next@.len() implies #[trigger] in_cycles(r@, i) by {
        assert(visited@[i as int]);
    }
    r
}

/// The contours of faces, or nothing where they are not clear: a half edge that
/// occurs twice, no open one, or a node with more than one open half edge.
#[verifier::rlimit(60)]
#[verifier::loop_isolation(false)]
pub fn outlines(faces: &Vec<Vec<u32>>) -> (r: Option<Vec<Vec<u32>>>)
    ensures
        ({
            let halves = half_edges(faces@, faces@.len() as int);
            match r {
                Some(rings) => traceable(halves) && contours(rings@, halves),
                None => !traceable(halves),
            }
        }),
{
    let halves = list_halves(faces);
    let keys = number_halves(&halves);
    proof {
        distinct_when_full(keys@, halves@);
    }
    if keys.len() != halves.len() {
        return None;
    }
    let edges = match open_edges(&halves, &keys, &tabulate_halves(&halves)) {
        Some(edges) => edges,
        None => {
            return None;
        },
    };
    if edges.starts.len() == 0 {
        assert forall|half: HalfEdge| !#[trigger] open_half(halves@, half) by {
            if open_half(halves@, half) {
                assert(edges.starts@.contains(half.0));
            }
        }
        return None;
    }
    assert(open_half(halves@, (edges.starts@[0], edges.ends@[0])));
    let ghost n = edges.starts@.len() as int;
    let mut next: Vec<usize> = Vec::new();
    let mut used: Vec<bool> = Vec::new();
    let mut k: usize = 0;
    while k < edges.starts.len()
        invariant
            k <= n,
            used@.len() == k,
            forall|i: int| 0 <= i < k ==> !#[trigger] used@[i],
        decreases n - k,
    {
        used.push(false);
        k += 1;
    }
    let mut k: usize = 0;
    while k < edges.starts.len()
        invariant
            k <= n,
            next@.len() == k,
            used@.len() == n,
            forall|i: int| 0 <= i < k ==> #[trigger] next@[i] < n && edges.starts@[next@[i] as int] == edges.ends@[i] && used@[next@[i] as int],
            forall|i: int, j: int| 0 <= i < j < k ==> #[trigger] next@[i] != #[trigger] next@[j],
            forall|u: int| 0 <= u < n && #[trigger] used@[u] ==> exists|i: int| 0 <= i < k && #[trigger] next@[i] == u,
        decreases n - k,
    {
        let ghost own: HalfEdge = (edges.starts@[k as int], edges.ends@[k as int]);
        assert(open_half(halves@, own));
        match find_id(&edges.starts, edges.ends[k]) {
            Some(place) => {
                if used[place] {
                    proof {
                        let i = choose|i: int| 0 <= i < k && #[trigger] next@[i] == place;
                        let other: HalfEdge = (edges.starts@[i], edges.ends@[i]);
                        assert(open_half(halves@, other));
                        assert(other.1 == own.1);
                        assert(edges.starts@[i] < edges.starts@[k as int]);
                    }
                    return None;
                }
                let ghost before_next = next@;
                let ghost before_used = used@;
                next.push(place);
                used.set(place, true);
                proof {
                    assert forall|i: int| 0 <= i < k + 1 implies #[trigger] next@[i] < n && edges.starts@[next@[i] as int] == edges.ends@[i] && used@[next@[i] as int] by {
                        if i < k {
                            assert(next@[i] == before_next[i]);
                        }
                    }
                    assert forall|i: int, j: int| 0 <= i < j < k + 1 implies #[trigger] next@[i] != #[trigger] next@[j] by {
                        assert(next@[i] == before_next[i]);
                        assert(before_used[before_next[i] as int]);
                    }
                    assert forall|u: int| 0 <= u < n && #[trigger] used@[u] implies exists|i: int| 0 <= i < k + 1 && #[trigger] next@[i] == u by {
                        if u == place {
                            assert(next@[k as int] == u);
                        } else {
                            assert(before_used[u]);
                            let i = choose|i: int| 0 <= i < k && #[trigger] before_next[i] == u;
                            assert(next@[i] == u);
                        }
                    }
                }
            },
            None => {
                proof {
                    assert(!starts_somewhere(halves@, own.1)) by {
                        if starts_somewhere(halves@, own.1) {
                            let half = choose|half: HalfEdge| #[trigger] open_half(halves@, half) && half.0 == own.1;
                            assert(edges.starts@.contains(half.0));
                        }
                    }
                }
                return None;
            },
        }
        k += 1;
    }
    let cycles = all_cycles(&next);
    let mut rings: Vec<Vec<u32>> = Vec::new();
    let mut c: usize = 0;
    while c < cycles.len()
        invariant
            c <= cycles@.len(),
            rings@.len() == c,
            forall|d: int| 0 <= d < c ==> ring_named((#[trigger] rings@[d])@, cycles@[d]@, edges.starts@),
        decreases cycles@.len() - c,
    {
        let cycle = &cycles[c];
        let mut ring: Vec<u32> = Vec::new();
        let mut m: usize = 0;
        while m < cycle.len()
            invariant
                c < cycles@.len(),
                *cycle == cycles@[c as int],
                m <= cycle@.len(),
                ring@.len() == m,
                forall|q: int| 0 <= q < m ==> #[trigger] ring@[q] == edges.starts@[cycle@[q] as int],
            decreases cycle@.len() - m,
        {
            assert(closed_cycle(cycles@[c as int]@, next@));
            assert(cycle@[m as int] < next@.len());
            ring.push(edges.starts[cycle[m]]);
            m += 1;
        }
        rings.push(ring);
        c += 1;
    }
    proof {
        assert forall|d: int| 0 <= d < rings@.len() implies contour((#[trigger] rings@[d])@, halves@) by {
            let cycle = cycles@[d]@;
            let ring = rings@[d]@;
            assert(closed_cycle(cycle, next@));
            assert(ring_named(ring, cycle, edges.starts@));
            assert forall|i: int, j: int| 0 <= i < ring.len() && 0 <= j < ring.len() && i != j implies ring[i] != ring[j] by {
                assert(cycle[i] != cycle[j]);
                if cycle[i] < cycle[j] {
                    assert(edges.starts@[cycle[i] as int] < edges.starts@[cycle[j] as int]);
                } else {
                    assert(edges.starts@[cycle[j] as int] < edges.starts@[cycle[i] as int]);
                }
            }
            assert forall|q: int| 0 <= q < ring.len() implies open_half(halves@, #[trigger] half_edge(ring, q)) by {
                let place = cycle[q] as int;
                assert(place < n);
                assert(open_half(halves@, (edges.starts@[place], edges.ends@[place])));
                assert(edges.starts@[next@[place] as int] == edges.ends@[place]);
                if q + 1 < ring.len() {
                    assert(next@[cycle[q] as int] == cycle[q + 1]);
                    assert(ring[q + 1] == edges.starts@[cycle[q + 1] as int]);
                } else {
                    assert(ring[0] == edges.starts@[cycle[0] as int]);
                }
                assert(half_edge(ring, q) == (edges.starts@[place], edges.ends@[place]));
            }
            assert forall|q: int| 0 <= q < ring.len() implies ring[0] <= #[trigger] ring[q] by {
                assert(cycle[0] <= cycle[q]);
                if cycle[0] < cycle[q] {
                    assert(edges.starts@[cycle[0] as int] < edges.starts@[cycle[q] as int]);
                }
            }
        }
        assert forall|half: HalfEdge| #[trigger] open_half(halves@, half) implies on_contour(rings@, half.0) by {
            assert(edges.starts@.contains(half.0));
            let i = choose|i: int| 0 <= i < n && edges.starts@[i] == half.0;
            assert(in_cycles(cycles@, i as usize));
            let d = choose|d: int| 0 <= d < cycles@.len() && #[trigger] cycles@[d]@.contains(i as usize);
            let q = choose|q: int| 0 <= q < cycles@[d]@.len() && cycles@[d]@[q] == i as usize;
            assert(ring_named(rings@[d]@, cycles@[d]@, edges.starts@));
            assert(rings@[d]@[q] == half.0);
            assert(rings@[d]@.contains(half.0));
        }
        assert forall|a: int, b: int| 0 <= a < b < rings@.len() implies (#[trigger] rings@[a])@[0] < (#[trigger] rings@[b])@[0] by {
            assert(ring_named(rings@[a]@, cycles@[a]@, edges.starts@));
            assert(ring_named(rings@[b]@, cycles@[b]@, edges.starts@));
            assert(closed_cycle(cycles@[a]@, next@));
            assert(closed_cycle(cycles@[b]@, next@));
            assert(cycles@[a]@[0] < cycles@[b]@[0]);
            assert(cycles@[b]@[0] < n);
            assert(edges.starts@[cycles@[a]@[0] as int] < edges.starts@[cycles@[b]@[0] as int]);
        }
        assert forall|a: HalfEdge, b: HalfEdge| #[trigger] open_half(halves@, a) && #[trigger] open_half(halves@, b) && (a.0 == b.0 || a.1 == b.1) implies a == b by {
            if a.0 != b.0 {
                assert(edges.starts@.contains(a.0));
                assert(edges.starts@.contains(b.0));
                let i = choose|i: int| 0 <= i < n && edges.starts@[i] == a.0;
                let j = choose|j: int| 0 <= j < n && edges.starts@[j] == b.0;
                let own_a: HalfEdge = (edges.starts@[i], edges.ends@[i]);
                let own_b: HalfEdge = (edges.starts@[j], edges.ends@[j]);
                assert(open_half(halves@, own_a));
                assert(open_half(halves@, own_b));
                assert(own_a == a);
                assert(own_b == b);
                assert(edges.starts@[next@[i] as int] == edges.ends@[i]);
                assert(edges.starts@[next@[j] as int] == edges.ends@[j]);
                if next@[i] < next@[j] {
                    assert(edges.starts@[next@[i] as int] < edges.starts@[next@[j] as int]);
                } else if next@[j] < next@[i] {
                    assert(edges.starts@[next@[j] as int] < edges.starts@[next@[i] as int]);
                }
                if i < j {
                    assert(next@[i] != next@[j]);
                } else {
                    assert(next@[j] != next@[i]);
                }
            }
        }
        assert forall|a: HalfEdge| #[trigger] open_half(halves@, a) implies starts_somewhere(halves@, a.1) by {
            assert(edges.starts@.contains(a.0));
            let i = choose|i: int| 0 <= i < n && edges.starts@[i] == a.0;
            let own: HalfEdge = (edges.starts@[i], edges.ends@[i]);
            assert(open_half(halves@, own));
            assert(own == a);
            let place = next@[i] as int;
            assert(place < n && edges.starts@[place] == edges.ends@[i]);
            assert(open_half(halves@, (edges.starts@[place], edges.ends@[place])));
        }
        assert(traceable(halves@));
    }
    Some(rings)
}

spec fn ring_named(ring: Seq<u32>, cycle: Seq<usize>, starts: Seq<u32>) -> bool {
    ring.len() == cycle.len() && forall|q: int| 0 <= q < ring.len() ==> #[trigger] ring[q] == starts[cycle[q] as int]
}

#[verifier::opaque]
spec fn both_contours(first: Seq<u32>, second: Seq<u32>, halves: Seq<HalfEdge>) -> bool {
    traceable(halves) && contour(first, halves) && contour(second, halves)
}

proof fn same_step(first: Seq<u32>, second: Seq<u32>, halves: Seq<HalfEdge>, a: int, b: int)
    requires
        both_contours(first, second, halves),
        0 <= a < first.len(),
        0 <= b < second.len(),
        first[a] == second[b],
    ensures
        half_edge(first, a) == half_edge(second, b),
{
    reveal(both_contours);
    let x = half_edge(first, a);
    let y = half_edge(second, b);
    assert(open_half(halves, x));
    assert(open_half(halves, y));
}

proof fn least_first(first: Seq<u32>, second: Seq<u32>, halves: Seq<HalfEdge>, k: int)
    requires
        both_contours(first, second, halves),
        0 <= k < second.len(),
    ensures
        second[0] <= second[k],
{
    reveal(both_contours);
}

/// Two contours through one node run on together, so that each reaches the first
/// node of the other.
proof fn walk_reaches(first: Seq<u32>, second: Seq<u32>, halves: Seq<HalfEdge>, a: int, b: int, left: int)
    requires
        both_contours(first, second, halves),
        0 <= a < first.len(),
        0 <= b < second.len(),
        first[a] == second[b],
        left == first.len() - a,
    ensures
        second[0] <= first[0],
    decreases left,
{
    same_step(first, second, halves, a, b);
    let next: int = if b + 1 < second.len() {
        b + 1
    } else {
        0
    };
    if a + 1 < first.len() {
        walk_reaches(first, second, halves, a + 1, next, left - 1);
    } else {
        least_first(first, second, halves, next);
    }
}

/// Contours have no node in common.
pub proof fn contours_are_apart(rings: Seq<Vec<u32>>, halves: Seq<HalfEdge>, r: int, s: int, node: u32)
    requires
        traceable(halves),
        contours(rings, halves),
        0 <= r < s < rings.len(),
    ensures
        !(rings[r]@.contains(node) && rings[s]@.contains(node)),
{
    let first = rings[r]@;
    let second = rings[s]@;
    assert(first[0] < second[0]);
    assert(both_contours(first, second, halves)) by {
        reveal(both_contours);
        assert(contour(rings[r]@, halves));
        assert(contour(rings[s]@, halves));
    }
    if first.contains(node) && second.contains(node) {
        let a = choose|a: int| 0 <= a < first.len() && first[a] == node;
        let b = choose|b: int| 0 <= b < second.len() && second[b] == node;
        walk_reaches(first, second, halves, a, b, first.len() - a);
    }
}

/// A contour encloses something: it has three nodes or more.
pub proof fn contours_enclose(ring: Seq<u32>, halves: Seq<HalfEdge>)
    requires
        contour(ring, halves),
    ensures
        ring.len() >= 3,
{
    assert(open_half(halves, half_edge(ring, 0)));
    if ring.len() == 2 {
        assert(open_half(halves, half_edge(ring, 1)));
    }
}

/// A face has a half edge from every node to the next, and from the last back to the first.
pub proof fn half_edges_go_round(nodes: Seq<u32>, i: int)
    requires
        0 <= i < nodes.len(),
    ensures
        half_edge(nodes, i).0 == nodes[i],
        i + 1 < nodes.len() ==> half_edge(nodes, i).1 == nodes[i + 1],
        i + 1 == nodes.len() ==> half_edge(nodes, i).1 == nodes[0],
        half_edge(nodes, i).1 == half_edge(nodes, if i + 1 < nodes.len() { i + 1 } else { 0 }).0,
{
}

proof fn face_has_halves(nodes: Seq<u32>, upto: int, half: HalfEdge)
    requires
        0 <= upto <= nodes.len(),
    ensures
        face_halves(nodes, upto).contains(half) <==> exists|i: int| 0 <= i < upto && #[trigger] half_edge(nodes, i) == half,
        face_halves(nodes, upto).len() == upto,
    decreases upto,
{
    if upto > 0 {
        face_has_halves(nodes, upto - 1, half);
        crate::ordering::pushed_contains(face_halves(nodes, upto - 1), half_edge(nodes, upto - 1), half);
    }
}

/// The half edges are those of all faces, and no others.
pub proof fn half_edges_are_of_the_faces(faces: Seq<Vec<u32>>, upto: int, half: HalfEdge)
    requires
        0 <= upto <= faces.len(),
    ensures
        half_edges(faces, upto).contains(half) <==> exists|f: int, i: int|
            0 <= f < upto && 0 <= i < faces[f]@.len() && #[trigger] half_edge(faces[f]@, i) == half,
    decreases upto,
{
    if upto > 0 {
        half_edges_are_of_the_faces(faces, upto - 1, half);
        let nodes = faces[upto - 1]@;
        let n = nodes.len() as int;
        face_has_halves(nodes, n, half);
        let rest = half_edges(faces, upto - 1);
        let more = face_halves(nodes, n);
        let all = half_edges(faces, upto);
        assert(all == rest + more);
        if all.contains(half) {
            let m = choose|m: int| 0 <= m < all.len() && all[m] == half;
            if m < rest.len() {
                assert(rest[m] == half);
                let (f, i) = choose|f: int, i: int|
                    0 <= f < upto - 1 && 0 <= i < faces[f]@.len() && #[trigger] half_edge(faces[f]@, i) == half;
                assert(half_edge(faces[f]@, i) == half);
            } else {
                assert(more[m - rest.len()] == half);
                let i = choose|i: int| 0 <= i < n && #[trigger] half_edge(nodes, i) == half;
                assert(half_edge(faces[upto - 1]@, i) == half);
            }
        }
        if exists|f: int, i: int| 0 <= f < upto && 0 <= i < faces[f]@.len() && #[trigger] half_edge(faces[f]@, i) == half {
            let (f, i) = choose|f: int, i: int|
                0 <= f < upto && 0 <= i < faces[f]@.len() && #[trigger] half_edge(faces[f]@, i) == half;
            if f < upto - 1 {
                assert(half_edge(faces[f]@, i) == half);
                assert(rest.contains(half));
                let m = choose|m: int| 0 <= m < rest.len() && rest[m] == half;
                assert(all[m] == half);
            } else {
                assert(half_edge(nodes, i) == half);
                assert(more.contains(half));
                let m = choose|m: int| 0 <= m < more.len() && more[m] == half;
                assert(all[rest.len() + m] == half);
            }
        }
    }
}

/// A contour runs along sides that one face has and no face has the other way round.
pub proof fn contours_run_along_open_sides(rings: Seq<Vec<u32>>, faces: Seq<Vec<u32>>, r: int, k: int)
    requires
        contours(rings, half_edges(faces, faces.len() as int)),
        0 <= r < rings.len(),
        0 <= k < rings[r]@.len(),
    ensures
        ({
            let from = rings[r]@[k];
            let to = rings[r]@[if k + 1 < rings[r]@.len() { k + 1 } else { 0 }];
            let halves = half_edges(faces, faces.len() as int);
            halves.contains((from, to)) && !halves.contains((to, from))
        }),
        rings[r]@[0] <= rings[r]@[k],
{
    let halves = half_edges(faces, faces.len() as int);
    assert(contour(rings[r]@, halves));
    assert(open_half(halves, half_edge(rings[r]@, k)));
}

} // verus!
