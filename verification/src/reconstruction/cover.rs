//! Smallest partitions of a path into subpaths that fit one chord each.
use vstd::prelude::*;
use crate::ordering::ascending_indices;

verus! {

/// Fitting subpaths: `valid[i][j]` tells whether bars `i..j` fit one chord.
pub open spec fn fits(valid: Seq<Vec<bool>>, i: int, j: int) -> bool {
    0 <= i < j <= valid.len() && valid[i]@[j]
}

pub open spec fn table_complete(valid: Seq<Vec<bool>>) -> bool {
    forall|i: int| 0 <= i < valid.len() ==> (#[trigger] valid[i])@.len() == valid.len() + 1
}

/// Bars `i..j` can be partitioned into `count` fitting subpaths.
pub open spec fn covers(valid: Seq<Vec<bool>>, i: int, j: int, count: nat) -> bool
    decreases count,
{
    if count == 0 {
        i == j
    } else {
        exists|k: int| #[trigger] fits(valid, k, j) && i <= k && covers(valid, i, k, (count - 1) as nat)
    }
}

/// The least number of fitting subpaths that partition bars `i..j`; one more
/// than there are bars where there is no such partition.
pub open spec fn is_fewest(valid: Seq<Vec<bool>>, i: int, j: int, count: int) -> bool {
    ||| 0 <= count <= valid.len() && covers(valid, i, j, count as nat) && forall|c: nat|
        c < count ==> !#[trigger] covers(valid, i, j, c)
    ||| count == valid.len() + 1 && forall|c: nat| !#[trigger] covers(valid, i, j, c)
}

/// Position `k` is a cut of some smallest partition of the whole path.
pub open spec fn optimal_cut(valid: Seq<Vec<bool>>, k: int) -> bool {
    exists|a: nat, b: nat| #[trigger] covers(valid, 0, k, a) && #[trigger] covers(valid, k, valid.len() as int, b)
        && is_fewest(valid, 0, valid.len() as int, (a + b) as int)
}

proof fn covers_bounds(valid: Seq<Vec<bool>>, i: int, j: int, count: nat)
    requires
        covers(valid, i, j, count),
        0 <= i,
    ensures
        i + count <= j,
        count > 0 ==> j <= valid.len(),
    decreases count,
{
    if count > 0 {
        let k = choose|k: int| #[trigger] fits(valid, k, j) && i <= k && covers(valid, i, k, (count - 1) as nat);
        covers_bounds(valid, i, k, (count - 1) as nat);
    }
}

/// Partitions of adjacent stretches join to one of the whole stretch.
pub proof fn covers_join(valid: Seq<Vec<bool>>, i: int, k: int, j: int, a: nat, b: nat)
    requires
        covers(valid, i, k, a),
        covers(valid, k, j, b),
        0 <= i,
    ensures
        covers(valid, i, j, a + b),
    decreases b,
{
    if b > 0 {
        let m = choose|m: int| #[trigger] fits(valid, m, j) && k <= m && covers(valid, k, m, (b - 1) as nat);
        covers_bounds(valid, i, k, a);
        covers_join(valid, i, k, m, a, (b - 1) as nat);
        assert(covers(valid, i, m, (a + b - 1) as nat));
        assert(fits(valid, m, j) && i <= m);
    }
}

proof fn covers_first(valid: Seq<Vec<bool>>, i: int, j: int, count: nat) -> (k: int)
    requires
        covers(valid, i, j, count),
        count > 0,
        0 <= i,
    ensures
        fits(valid, i, k),
        covers(valid, k, j, (count - 1) as nat),
        k <= j,
    decreases count,
{
    let m = choose|m: int| #[trigger] fits(valid, m, j) && i <= m && covers(valid, i, m, (count - 1) as nat);
    if count == 1 {
        assert(m == i);
        assert(covers(valid, j, j, 0));
        j
    } else {
        let k = covers_first(valid, i, m, (count - 1) as nat);
        assert(covers(valid, k, m, (count - 2) as nat));
        assert(fits(valid, m, j) && k <= m);
        assert(covers(valid, k, j, (count - 1) as nat));
        k
    }
}

spec fn fewest_ending_so_far(valid: Seq<Vec<bool>>, j: int, upto: int, count: int) -> bool {
    let reachable = |c: nat| c > 0 && exists|k: int| 0 <= k < upto && #[trigger] fits(valid, k, j) && covers(valid, 0, k, (c - 1) as nat);
    ||| 0 <= count <= valid.len() && reachable(count as nat) && forall|c: nat| c < count ==> !#[trigger] reachable(c)
    ||| count == valid.len() + 1 && forall|c: nat| !#[trigger] reachable(c)
}

spec fn fewest_starting_so_far(valid: Seq<Vec<bool>>, i: int, upto: int, count: int) -> bool {
    let n = valid.len() as int;
    let reachable = |c: nat| c > 0 && exists|k: int| i < k < upto && #[trigger] fits(valid, i, k) && covers(valid, k, n, (c - 1) as nat);
    ||| 0 <= count <= n && reachable(count as nat) && forall|c: nat| c < count ==> !#[trigger] reachable(c)
    ||| count == n + 1 && forall|c: nat| !#[trigger] reachable(c)
}

#[verifier::loop_isolation(false)]
fn fewest_before(valid: &Vec<Vec<bool>>) -> (prefix: Vec<usize>)
    requires
        table_complete(valid@),
        valid.len() < usize::MAX - 1,
    ensures
        prefix.len() == valid.len() + 1,
        forall|j: int| 0 <= j <= valid.len() ==> is_fewest(valid@, 0, j, #[trigger] prefix@[j] as int),
{
    let n: usize = valid.len();
    let mut prefix: Vec<usize> = Vec::new();
    prefix.push(0);
    proof {
        assert(covers(valid@, 0, 0, 0));
    }
    let mut j: usize = 1;
    while j <= n
        invariant
            1 <= j <= n + 1,
            prefix.len() == j,
            forall|k: int| 0 <= k < j ==> is_fewest(valid@, 0, k, #[trigger] prefix@[k] as int),
        decreases n + 1 - j,
    {
        let mut best: usize = n + 1;
        let mut i: usize = 0;
        while i < j
            invariant
                i <= j,
                best <= n + 1,
                fewest_ending_so_far(valid@, j as int, i as int, best as int),
            decreases j - i,
        {
            let ghost before = best as int;
            assert(is_fewest(valid@, 0, i as int, prefix@[i as int] as int));
            assert(valid@[i as int]@.len() == n + 1);
            if valid[i][j] {
                assert(fits(valid@, i as int, j as int));
                if prefix[i] + 1 < best {
                    best = prefix[i] + 1;
                }
            }
            proof {
                extend_ending(valid@, j as int, i as int, before, prefix@[i as int] as int, best as int);
            }
            i += 1;
        }
        proof {
            ending_complete(valid@, j as int, best as int);
        }
        prefix.push(best);
        j += 1;
    }
    prefix
}

proof fn extend_ending(valid: Seq<Vec<bool>>, j: int, i: int, before: int, reached: int, best: int)
    requires
        fewest_ending_so_far(valid, j, i, before),
        0 <= i < j <= valid.len(),
        is_fewest(valid, 0, i, reached),
        best == (if fits(valid, i, j) && reached + 1 < before {
            reached + 1
        } else {
            before
        }),
    ensures
        fewest_ending_so_far(valid, j, i + 1, best),
{
    let old_reach = |c: nat| c > 0 && exists|k: int| 0 <= k < i && #[trigger] fits(valid, k, j) && covers(valid, 0, k, (c - 1) as nat);
    let new_reach = |c: nat| c > 0 && exists|k: int| 0 <= k < i + 1 && #[trigger] fits(valid, k, j) && covers(valid, 0, k, (c - 1) as nat);
    assert forall|c: nat| #[trigger] new_reach(c) <==> old_reach(c) || (c > 0 && fits(valid, i, j) && covers(valid, 0, i, (c - 1) as nat)) by {
        if new_reach(c) {
            let k = choose|k: int| 0 <= k < i + 1 && #[trigger] fits(valid, k, j) && covers(valid, 0, k, (c - 1) as nat);
            if k < i {
                assert(fits(valid, k, j));
            }
        }
        if old_reach(c) {
            let k = choose|k: int| 0 <= k < i && #[trigger] fits(valid, k, j) && covers(valid, 0, k, (c - 1) as nat);
            assert(fits(valid, k, j));
        }
    }
    if reached <= valid.len() {
        covers_bounds(valid, 0, i, reached as nat);
    }
    assert forall|c: nat| c < best implies !#[trigger] new_reach(c) by {
        if new_reach(c) {
            if !old_reach(c) {
                assert(covers(valid, 0, i, (c - 1) as nat));
            }
        }
    }
    if best <= valid.len() {
        if best == before {
            assert(old_reach(best as nat));
        } else {
            assert(covers(valid, 0, i, reached as nat));
        }
        assert(new_reach(best as nat));
    } else {
        assert forall|c: nat| !#[trigger] new_reach(c) by {
            if new_reach(c) {
                assert(!old_reach(c));
                covers_bounds(valid, 0, i, (c - 1) as nat);
                assert(reached <= c - 1);
            }
        }
    }
}

proof fn ending_complete(valid: Seq<Vec<bool>>, j: int, best: int)
    requires
        0 < j <= valid.len(),
        fewest_ending_so_far(valid, j, j, best),
    ensures
        is_fewest(valid, 0, j, best),
{
    let reach = |c: nat| c > 0 && exists|k: int| 0 <= k < j && #[trigger] fits(valid, k, j) && covers(valid, 0, k, (c - 1) as nat);
    assert forall|c: nat| #[trigger] covers(valid, 0, j, c) <==> reach(c) by {
        if covers(valid, 0, j, c) {
            let k = choose|k: int| #[trigger] fits(valid, k, j) && 0 <= k && covers(valid, 0, k, (c - 1) as nat);
            assert(fits(valid, k, j));
        }
        if reach(c) {
            let k = choose|k: int| 0 <= k < j && #[trigger] fits(valid, k, j) && covers(valid, 0, k, (c - 1) as nat);
            assert(fits(valid, k, j));
        }
    }
    if best <= valid.len() {
        assert(reach(best as nat));
        assert forall|c: nat| c < best implies !#[trigger] covers(valid, 0, j, c) by {
            assert(!reach(c));
        }
    } else {
        assert forall|c: nat| !#[trigger] covers(valid, 0, j, c) by {
            assert(!reach(c));
        }
    }
}

proof fn extend_starting(valid: Seq<Vec<bool>>, i: int, j: int, before: int, reached: int, best: int)
    requires
        fewest_starting_so_far(valid, i, j, before),
        0 <= i < j <= valid.len(),
        is_fewest(valid, j, valid.len() as int, reached),
        best == (if fits(valid, i, j) && reached + 1 < before {
            reached + 1
        } else {
            before
        }),
    ensures
        fewest_starting_so_far(valid, i, j + 1, best),
{
    let n = valid.len() as int;
    let old_reach = |c: nat| c > 0 && exists|k: int| i < k < j && #[trigger] fits(valid, i, k) && covers(valid, k, n, (c - 1) as nat);
    let new_reach = |c: nat| c > 0 && exists|k: int| i < k < j + 1 && #[trigger] fits(valid, i, k) && covers(valid, k, n, (c - 1) as nat);
    assert forall|c: nat| #[trigger] new_reach(c) <==> old_reach(c) || (c > 0 && fits(valid, i, j) && covers(valid, j, n, (c - 1) as nat)) by {
        if new_reach(c) {
            let k = choose|k: int| i < k < j + 1 && #[trigger] fits(valid, i, k) && covers(valid, k, n, (c - 1) as nat);
            if k < j {
                assert(fits(valid, i, k));
            }
        }
        if old_reach(c) {
            let k = choose|k: int| i < k < j && #[trigger] fits(valid, i, k) && covers(valid, k, n, (c - 1) as nat);
            assert(fits(valid, i, k));
        }
    }
    if reached <= n {
        covers_bounds(valid, j, n, reached as nat);
    }
    assert forall|c: nat| c < best implies !#[trigger] new_reach(c) by {
        if new_reach(c) {
            if !old_reach(c) {
                assert(covers(valid, j, n, (c - 1) as nat));
            }
        }
    }
    if best <= n {
        if best == before {
            assert(old_reach(best as nat));
        } else {
            assert(covers(valid, j, n, reached as nat));
        }
        assert(new_reach(best as nat));
    } else {
        assert forall|c: nat| !#[trigger] new_reach(c) by {
            if new_reach(c) {
                assert(!old_reach(c));
                covers_bounds(valid, j, n, (c - 1) as nat);
                assert(reached <= c - 1);
            }
        }
    }
}

proof fn starting_complete(valid: Seq<Vec<bool>>, i: int, best: int)
    requires
        0 <= i < valid.len(),
        fewest_starting_so_far(valid, i, valid.len() as int + 1, best),
    ensures
        is_fewest(valid, i, valid.len() as int, best),
{
    let n = valid.len() as int;
    let reach = |c: nat| c > 0 && exists|k: int| i < k < n + 1 && #[trigger] fits(valid, i, k) && covers(valid, k, n, (c - 1) as nat);
    assert forall|c: nat| #[trigger] covers(valid, i, n, c) <==> reach(c) by {
        if covers(valid, i, n, c) {
            if c > 0 {
                let k = covers_first(valid, i, n, c);
                assert(fits(valid, i, k));
            }
        }
        if reach(c) {
            let k = choose|k: int| i < k < n + 1 && #[trigger] fits(valid, i, k) && covers(valid, k, n, (c - 1) as nat);
            assert(covers(valid, i, i, 0));
            assert(fits(valid, i, k));
            assert(covers(valid, i, k, 1)) by {
                assert(covers(valid, i, i, (1 - 1) as nat));
            }
            covers_join(valid, i, k, n, 1, (c - 1) as nat);
        }
    }
    if best <= n {
        assert(reach(best as nat));
        assert forall|c: nat| c < best implies !#[trigger] covers(valid, i, n, c) by {
            assert(!reach(c));
        }
    } else {
        assert forall|c: nat| !#[trigger] covers(valid, i, n, c) by {
            assert(!reach(c));
        }
    }
}

#[verifier::loop_isolation(false)]
fn fewest_after(valid: &Vec<Vec<bool>>) -> (suffix: Vec<usize>)
    requires
        table_complete(valid@),
        valid.len() < usize::MAX - 1,
    ensures
        suffix.len() == valid.len() + 1,
        forall|i: int|
            0 <= i <= valid.len() ==> is_fewest(
                valid@,
                i,
                valid.len() as int,
                #[trigger] suffix@[i] as int,
            ),
{
    let n: usize = valid.len();
    let mut suffix: Vec<usize> = Vec::new();
    let mut fill: usize = 0;
    while fill <= n
        invariant
            fill <= n + 1,
            suffix.len() == fill,
            forall|k: int| 0 <= k < fill ==> suffix@[k] == 0,
        decreases n + 1 - fill,
    {
        suffix.push(0);
        fill += 1;
    }
    proof {
        assert(covers(valid@, n as int, n as int, 0));
    }
    let mut left: usize = n;
    while left > 0
        invariant
            left <= n,
            suffix.len() == n + 1,
            forall|k: int| left <= k <= n ==> is_fewest(valid@, k, n as int, #[trigger] suffix@[k] as int),
        decreases left,
    {
        let i: usize = left - 1;
        let mut best: usize = n + 1;
        let mut j: usize = left;
        while j <= n
            invariant
                left <= j <= n + 1,
                best <= n + 1,
                fewest_starting_so_far(valid@, i as int, j as int, best as int),
            decreases n + 1 - j,
        {
            let ghost before = best as int;
            assert(is_fewest(valid@, j as int, n as int, suffix@[j as int] as int));
            assert(valid@[i as int]@.len() == n + 1);
            if valid[i][j] {
                assert(fits(valid@, i as int, j as int));
                if suffix[j] + 1 < best {
                    best = suffix[j] + 1;
                }
            }
            proof {
                extend_starting(valid@, i as int, j as int, before, suffix@[j as int] as int, best as int);
            }
            j += 1;
        }
        proof {
            starting_complete(valid@, i as int, best as int);
        }
        suffix.set(i, best);
        left = i;
    }
    suffix
}

/// The smallest partition has as many subpaths as any other smallest one.
proof fn fewest_determined(valid: Seq<Vec<bool>>, i: int, j: int, a: int, b: int)
    requires
        is_fewest(valid, i, j, a),
        is_fewest(valid, i, j, b),
    ensures
        a == b,
{
}

/// The cuts of a path: both its ends, and every place where some smallest
/// partition cuts it.
pub open spec fn cut_list(valid: Seq<Vec<bool>>, cuts: Seq<usize>) -> bool {
    &&& ascending_indices(cuts)
    &&& cuts.len() >= 2
    &&& cuts[0] == 0
    &&& cuts[cuts.len() - 1] == valid.len()
    &&& (exists|c: nat| covers(valid, 0, valid.len() as int, c)) ==> forall|k: usize|
        k <= valid.len() ==> (#[trigger] cuts.contains(k) <==> optimal_cut(valid, k as int))
    &&& (forall|c: nat| !#[trigger] covers(valid, 0, valid.len() as int, c)) ==> cuts.len() == 2
}

/// Minimum-count cover of a path by fitting subpaths: keeps every cut that
/// belongs to some smallest cover rather than choosing one by traversal order.
/// A path that no cover fits is cut at its two ends only.
#[verifier::loop_isolation(false)]
pub fn optimal_cuts(valid: &Vec<Vec<bool>>) -> (cuts: Vec<usize>)
    requires
        table_complete(valid@),
        valid.len() > 0,
        2 * valid.len() < usize::MAX - 2,
    ensures
        cut_list(valid@, cuts@),
{
    let n: usize = valid.len();
    let prefix = fewest_before(valid);
    let suffix = fewest_after(valid);
    let ghost whole = prefix@[n as int] as int;
    proof {
        assert(is_fewest(valid@, 0, n as int, prefix@[n as int] as int));
        assert(is_fewest(valid@, 0, n as int, suffix@[0] as int));
        assert(is_fewest(valid@, 0, 0, prefix@[0] as int));
        assert(is_fewest(valid@, n as int, n as int, suffix@[n as int] as int));
        assert(covers(valid@, 0, 0, 0));
        assert(covers(valid@, n as int, n as int, 0));
        fewest_determined(valid@, 0, n as int, prefix@[n as int] as int, suffix@[0] as int);
        assert(prefix@[0] == 0);
        assert(suffix@[n as int] == 0);
    }
    let mut cuts: Vec<usize> = Vec::new();
    let mut k: usize = 0;
    while k <= n
        invariant
            k <= n + 1,
            ascending_indices(cuts@),
            forall|m: int| 0 <= m < cuts.len() ==> #[trigger] cuts@[m] < k && prefix@[cuts@[m] as int] + suffix@[cuts@[m] as int] == whole,
            forall|x: usize| x < k && prefix@[x as int] + suffix@[x as int] == whole ==> #[trigger] cuts@.contains(x),
            k > 0 ==> cuts.len() > 0 && cuts@[0] == 0,
            k > n ==> cuts@[cuts@.len() - 1] == n,
        decreases n + 1 - k,
    {
        assert(is_fewest(valid@, 0, k as int, prefix@[k as int] as int));
        assert(is_fewest(valid@, k as int, n as int, suffix@[k as int] as int));
        let ghost before = cuts@;
        if prefix[k] + suffix[k] == prefix[n] {
            cuts.push(k);
            proof {
                assert(cuts@[cuts.len() - 1] == k);
                assert forall|x: usize| before.contains(x) implies cuts@.contains(x) by {
                    let m = choose|m: int| 0 <= m < before.len() && before[m] == x;
                    assert(cuts@[m] == x);
                }
            }
        }
        proof {
            assert forall|x: usize| x < k + 1 && prefix@[x as int] + suffix@[x as int] == whole implies #[trigger] cuts@.contains(x) by {
                if x < k {
                    assert(before.contains(x));
                } else {
                    assert(cuts@[cuts@.len() - 1] == x);
                }
            }
        }
        k += 1;
    }
    proof {
        if exists|c: nat| covers(valid@, 0, n as int, c) {
            assert forall|x: usize| x <= n implies (#[trigger] cuts@.contains(x) <==> optimal_cut(valid@, x as int)) by {
                cut_meaning(valid@, x as int, prefix@[x as int] as int, suffix@[x as int] as int, whole);
                if cuts@.contains(x) {
                    let m = choose|m: int| 0 <= m < cuts@.len() && cuts@[m] == x;
                    assert(prefix@[cuts@[m] as int] + suffix@[cuts@[m] as int] == whole);
                }
            }
        } else {
            assert forall|m: int| 0 <= m < cuts@.len() implies #[trigger] cuts@[m] == 0 || cuts@[m] == n by {
                let x = cuts@[m] as int;
                assert(is_fewest(valid@, 0, x, prefix@[x] as int));
                assert(is_fewest(valid@, x, n as int, suffix@[x] as int));
                if prefix@[x] <= n && suffix@[x] <= n {
                    covers_join(valid@, 0, x, n as int, prefix@[x] as nat, suffix@[x] as nat);
                }
                if prefix@[x] == 0 {
                    assert(x == 0);
                }
                if suffix@[x] == 0 {
                    assert(x == n);
                }
            }
            if cuts@.len() > 2 {
                assert(cuts@[0] < cuts@[1] && cuts@[1] < cuts@[2]);
            }
        }
        if cuts@.len() < 2 {
            assert(cuts@[0] == cuts@[cuts@.len() - 1]);
        }
    }
    cuts
}

proof fn cut_meaning(valid: Seq<Vec<bool>>, k: int, before: int, later: int, whole: int)
    requires
        0 <= k <= valid.len(),
        is_fewest(valid, 0, k, before),
        is_fewest(valid, k, valid.len() as int, later),
        is_fewest(valid, 0, valid.len() as int, whole),
        exists|c: nat| covers(valid, 0, valid.len() as int, c),
    ensures
        before + later == whole <==> optimal_cut(valid, k),
{
    let n = valid.len() as int;
    if before + later == whole {
        assert(covers(valid, 0, k, before as nat) && covers(valid, k, n, later as nat));
        assert(is_fewest(valid, 0, n, (before as nat + later as nat) as int));
    }
    if optimal_cut(valid, k) {
        let (a, b) = choose|a: nat, b: nat| #[trigger] covers(valid, 0, k, a) && #[trigger] covers(valid, k, n, b) && is_fewest(valid, 0, n, (a + b) as int);
        fewest_determined(valid, 0, n, whole, (a + b) as int);
        assert(before <= a);
        assert(later <= b);
        covers_join(valid, 0, k, n, before as nat, later as nat);
        assert(before + later >= whole);
    }
}

/// Subpaths to build between two consecutive cuts: the whole stretch where it
/// fits, else bar by bar, as a subchord need not satisfy its parent's bound.
pub open spec fn stretch_intervals(valid: Seq<Vec<bool>>, i: int, j: int) -> Seq<(usize, usize)> {
    if fits(valid, i, j) {
        seq![(i as usize, j as usize)]
    } else {
        Seq::new((j - i) as nat, |k: int| ((i + k) as usize, (i + k + 1) as usize))
    }
}

pub open spec fn cover_of(valid: Seq<Vec<bool>>, cuts: Seq<usize>, upto: int) -> Seq<(usize, usize)>
    decreases upto,
{
    if upto <= 0 {
        Seq::empty()
    } else {
        cover_of(valid, cuts, upto - 1) + stretch_intervals(
            valid,
            cuts[upto - 1] as int,
            cuts[upto] as int,
        )
    }
}

/// The intervals of a partitioned path, one axis each.
#[verifier::loop_isolation(false)]
pub fn cover_intervals(valid: &Vec<Vec<bool>>, cuts: &Vec<usize>) -> (r: Vec<(usize, usize)>)
    requires
        table_complete(valid@),
        ascending_indices(cuts@),
        cuts.len() >= 2,
        cuts@[cuts@.len() - 1] <= valid.len(),
    ensures
        r@ == cover_of(valid@, cuts@, cuts.len() - 1),
{
    let mut r: Vec<(usize, usize)> = Vec::new();
    let mut c: usize = 1;
    while c < cuts.len()
        invariant
            1 <= c <= cuts.len(),
            r@ == cover_of(valid@, cuts@, c - 1),
        decreases cuts.len() - c,
    {
        let i: usize = cuts[c - 1];
        let j: usize = cuts[c];
        assert(i < j && j <= cuts@[cuts@.len() - 1]);
        assert(valid@[i as int]@.len() == valid.len() + 1);
        let ghost before = r@;
        if valid[i][j] {
            r.push((i, j));
            assert(r@ =~= before + stretch_intervals(valid@, i as int, j as int));
        } else {
            let mut k: usize = i;
            while k < j
                invariant
                    i <= k <= j,
                    r@ == before + Seq::new((k - i) as nat, |m: int| ((i + m) as usize, (i + m + 1) as usize)),
                decreases j - k,
            {
                r.push((k, k + 1));
                assert(r@ =~= before + Seq::new((k + 1 - i) as nat, |m: int| ((i + m) as usize, (i + m + 1) as usize)));
                k += 1;
            }
            assert(r@ =~= before + stretch_intervals(valid@, i as int, j as int));
        }
        c += 1;
    }
    r
}

/// Consecutive intervals from `from` to `to` without gap or overlap.
pub open spec fn contiguous(intervals: Seq<(usize, usize)>, from: int, to: int) -> bool {
    &&& forall|k: int| 0 <= k < intervals.len() ==> (#[trigger] intervals[k]).0 < intervals[k].1
    &&& forall|k: int, l: int|
        #![trigger intervals[k], intervals[l]]
        0 <= k && l == k + 1 && l < intervals.len() ==> intervals[k].1 == intervals[l].0
    &&& if intervals.len() == 0 {
        from == to
    } else {
        intervals[0].0 == from && intervals.last().1 == to
    }
}

proof fn contiguous_join(a: Seq<(usize, usize)>, b: Seq<(usize, usize)>, from: int, mid: int, to: int)
    requires
        contiguous(a, from, mid),
        contiguous(b, mid, to),
    ensures
        contiguous(a + b, from, to),
{
    let c = a + b;
    assert forall|k: int, l: int|
        #![trigger c[k], c[l]]
        0 <= k && l == k + 1 && l < c.len() implies c[k].1 == c[l].0 by {
        if l < a.len() {
            assert(a[k].1 == a[l].0);
        } else if k >= a.len() {
            assert(b[k - a.len()].1 == b[l - a.len()].0);
        } else {
            assert(c[k] == a.last() && c[l] == b[0]);
        }
    }
    assert forall|k: int| 0 <= k < c.len() implies (#[trigger] c[k]).0 < c[k].1 by {
        if k < a.len() {
            assert(a[k].0 < a[k].1);
        } else {
            assert(b[k - a.len()].0 < b[k - a.len()].1);
        }
    }
    if a.len() > 0 && b.len() > 0 {
        assert(c.last() == b.last());
    }
}

/// Every interval of a partition lies within what is partitioned.
pub proof fn contiguous_within(intervals: Seq<(usize, usize)>, from: int, to: int)
    requires
        contiguous(intervals, from, to),
    ensures
        from <= to,
        forall|k: int|
            0 <= k < intervals.len() ==> from <= (#[trigger] intervals[k]).0 && intervals[k].1 <= to,
    decreases intervals.len(),
{
    if intervals.len() > 0 {
        let rest = intervals.drop_last();
        let last = intervals.last();
        assert(intervals[intervals.len() - 1].0 < intervals[intervals.len() - 1].1);
        assert forall|k: int| 0 <= k < rest.len() implies (#[trigger] rest[k]).0 < rest[k].1 by {
            assert(intervals[k].0 < intervals[k].1);
        }
        assert forall|k: int, l: int|
            #![trigger rest[k], rest[l]]
            0 <= k && l == k + 1 && l < rest.len() implies rest[k].1 == rest[l].0 by {
            assert(intervals[k].1 == intervals[l].0);
        }
        if rest.len() > 0 {
            assert(intervals[rest.len() - 1].1 == intervals[rest.len() as int].0);
        }
        assert(contiguous(rest, from, last.0 as int));
        contiguous_within(rest, from, last.0 as int);
        assert forall|k: int| 0 <= k < intervals.len() implies from <= (#[trigger] intervals[k]).0 && intervals[k].1 <= to by {
            if k < rest.len() {
                assert(rest[k] == intervals[k]);
            }
        }
    }
}

/// Interval `k` is the one that holds place `b`.
pub open spec fn holds_place(intervals: Seq<(usize, usize)>, k: int, b: int) -> bool {
    0 <= k < intervals.len() && intervals[k].0 <= b < intervals[k].1
}

/// Exactly one interval of a partition holds each place.
pub proof fn contiguous_holds(intervals: Seq<(usize, usize)>, from: int, to: int, b: int)
    requires
        contiguous(intervals, from, to),
        from <= b < to,
    ensures
        exists|k: int| #[trigger] holds_place(intervals, k, b),
        forall|k: int, l: int| #[trigger]
            holds_place(intervals, k, b) && #[trigger] holds_place(intervals, l, b) ==> k == l,
    decreases intervals.len(),
{
    let rest = intervals.drop_last();
    let last = intervals.last();
    assert forall|k: int| 0 <= k < rest.len() implies (#[trigger] rest[k]).0 < rest[k].1 by {
        assert(intervals[k].0 < intervals[k].1);
    }
    assert forall|k: int, l: int|
        #![trigger rest[k], rest[l]]
        0 <= k && l == k + 1 && l < rest.len() implies rest[k].1 == rest[l].0 by {
        assert(intervals[k].1 == intervals[l].0);
    }
    if rest.len() > 0 {
        assert(intervals[rest.len() - 1].1 == intervals[rest.len() as int].0);
    }
    assert(contiguous(rest, from, last.0 as int));
    contiguous_within(rest, from, last.0 as int);
    assert forall|k: int| holds_place(rest, k, b) == (#[trigger] holds_place(intervals, k, b) && k < rest.len()) by {
        if 0 <= k < rest.len() {
            assert(rest[k] == intervals[k]);
        }
    }
    if b < last.0 {
        contiguous_holds(rest, from, last.0 as int, b);
        let k = choose|k: int| #[trigger] holds_place(rest, k, b);
        assert(holds_place(intervals, k, b));
        assert forall|k: int, l: int| #[trigger] holds_place(intervals, k, b) && #[trigger] holds_place(intervals, l, b) implies k == l by {
            assert(holds_place(rest, k, b) && holds_place(rest, l, b));
        }
    } else {
        assert(holds_place(intervals, intervals.len() - 1, b));
        assert forall|k: int| #[trigger] holds_place(intervals, k, b) implies k == intervals.len() - 1 by {
            if k < rest.len() {
                assert(rest[k].1 <= last.0);
            }
        }
    }
}

/// A partitioned path loses no bar and doubles none.
pub proof fn cover_is_contiguous(valid: Seq<Vec<bool>>, cuts: Seq<usize>, upto: int)
    requires
        ascending_indices(cuts),
        0 <= upto < cuts.len(),
        cuts[cuts.len() - 1] <= valid.len() < usize::MAX,
    ensures
        contiguous(cover_of(valid, cuts, upto), cuts[0] as int, cuts[upto] as int),
    decreases upto,
{
    if upto > 0 {
        cover_is_contiguous(valid, cuts, upto - 1);
        let i = cuts[upto - 1] as int;
        let j = cuts[upto] as int;
        assert(cuts[upto - 1] < cuts[upto]);
        if upto < cuts.len() - 1 {
            assert(cuts[upto] < cuts[cuts.len() - 1]);
        }
        let part = stretch_intervals(valid, i, j);
        assert(contiguous(part, i, j));
        contiguous_join(cover_of(valid, cuts, upto - 1), part, cuts[0] as int, i, j);
    }
}

/// Two neighbouring cuts make one stretch where the bars between them fit one chord, and one
/// stretch for each bar where they do not.
pub proof fn stretches_fit_or_are_single(valid: Seq<Vec<bool>>, i: int, j: int, k: int)
    requires
        0 <= i < j <= valid.len(),
        j <= usize::MAX,
        0 <= k < stretch_intervals(valid, i, j).len(),
    ensures
        valid[i]@[j] ==> stretch_intervals(valid, i, j).len() == 1 && stretch_intervals(valid, i, j)[k].0 == i && stretch_intervals(
            valid,
            i,
            j,
        )[k].1 == j,
        !valid[i]@[j] ==> stretch_intervals(valid, i, j).len() == j - i && stretch_intervals(valid, i, j)[k].0 == i + k
            && stretch_intervals(valid, i, j)[k].1 == i + k + 1,
{
}

/// One stretch is covered by one chord exactly when it fits; nothing needs none.
pub proof fn single_chords_cover_what_fits(valid: Seq<Vec<bool>>, i: int, j: int)
    requires
        0 <= i <= j <= valid.len(),
    ensures
        covers(valid, i, j, 0) <==> i == j,
        i < j ==> (covers(valid, i, j, 1) <==> valid[i]@[j]),
{
    reveal_with_fuel(covers, 2);
    if i < j && valid[i]@[j] {
        assert(fits(valid, i, j));
        assert(covers(valid, i, i, 0));
    }
    if covers(valid, i, j, 1) {
        let k = choose|k: int| #[trigger] fits(valid, k, j) && i <= k && covers(valid, i, k, 0);
        assert(k == i);
    }
}

} // verus!
