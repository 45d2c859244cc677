//! Deterministic ordering of identifiers and indices.
use vstd::prelude::*;
use crate::registry::Registry;

verus! {

/// Strictly increasing identifiers: a set written down in ascending order.
pub open spec fn ascending(s: Seq<u32>) -> bool {
    forall|i: int, j: int| 0 <= i < j < s.len() ==> s[i] < s[j]
}

pub open spec fn ascending_indices(s: Seq<usize>) -> bool {
    forall|i: int, j: int| 0 <= i < j < s.len() ==> s[i] < s[j]
}

/// `r` lists the distinct values of `s` in ascending order.
pub open spec fn lists_distinct(r: Seq<u32>, s: Seq<u32>) -> bool {
    &&& ascending(r)
    &&& forall|x: u32| r.contains(x) <==> s.contains(x)
}

pub open spec fn lists_distinct_indices(r: Seq<usize>, s: Seq<usize>) -> bool {
    &&& ascending_indices(r)
    &&& forall|x: usize| r.contains(x) <==> s.contains(x)
}

/// `a` stands before `b` when sorting by key with ties kept in index order.
pub open spec fn key_before(keys: Seq<i128>, a: usize, b: usize) -> bool {
    keys[a as int] < keys[b as int] || (keys[a as int] == keys[b as int] && a < b)
}

/// `order` is the stable sorting permutation of `keys`.
pub open spec fn stable_order(keys: Seq<i128>, order: Seq<usize>) -> bool {
    &&& order.len() == keys.len()
    &&& forall|i: int| 0 <= i < order.len() ==> #[trigger] order[i] < keys.len()
    &&& forall|i: int, j: int|
        0 <= i < j < order.len() ==> key_before(keys, order[i], order[j])
    &&& forall|x: usize| x < keys.len() ==> #[trigger] order.contains(x)
}

spec fn run(keys: Seq<i128>, lo: int, hi: int, s: Seq<usize>) -> bool {
    &&& s.len() == hi - lo
    &&& forall|i: int| 0 <= i < s.len() ==> lo <= #[trigger] s[i] < hi
    &&& forall|i: int, j: int| 0 <= i < j < s.len() ==> key_before(keys, s[i], s[j])
    &&& forall|x: usize| lo <= x < hi ==> #[trigger] s.contains(x)
}

fn sort_run(keys: &Vec<i128>, lo: usize, hi: usize) -> (r: Vec<usize>)
    requires
        lo <= hi <= keys.len(),
    ensures
        run(keys@, lo as int, hi as int, r@),
    decreases hi - lo,
{
    if hi == lo {
        return Vec::new();
    }
    if hi - lo == 1 {
        let mut single: Vec<usize> = Vec::new();
        single.push(lo);
        assert(single@[0] == lo);
        return single;
    }
    let mid: usize = lo + (hi - lo) / 2;
    let left = sort_run(keys, lo, mid);
    let right = sort_run(keys, mid, hi);
    let mut out: Vec<usize> = Vec::new();
    let mut i: usize = 0;
    let mut j: usize = 0;
    while i < left.len() || j < right.len()
        invariant
            lo < mid < hi <= keys.len(),
            run(keys@, lo as int, mid as int, left@),
            run(keys@, mid as int, hi as int, right@),
            i <= left.len(),
            j <= right.len(),
            out.len() == i + j,
            forall|k: int| 0 <= k < out.len() ==> lo <= #[trigger] out@[k] < hi,
            forall|k: int, l: int|
                0 <= k < l < out.len() ==> key_before(keys@, out@[k], out@[l]),
            forall|k: int, l: int|
                0 <= k < out.len() && i <= l < left.len() ==> key_before(
                    keys@,
                    out@[k],
                    left@[l],
                ),
            forall|k: int, l: int|
                0 <= k < out.len() && j <= l < right.len() ==> key_before(
                    keys@,
                    out@[k],
                    right@[l],
                ),
            forall|k: int| 0 <= k < i ==> out@.contains(#[trigger] left@[k]),
            forall|k: int| 0 <= k < j ==> out@.contains(#[trigger] right@[k]),
        decreases left.len() - i + right.len() - j,
    {
        let ghost before = out@;
        let take_left: bool = if i == left.len() {
            false
        } else if j == right.len() {
            true
        } else {
            keys[left[i]] <= keys[right[j]]
        };
        proof {
            if take_left {
                assert forall|l: int| j <= l < right.len() implies key_before(
                    keys@,
                    left@[i as int],
                    right@[l],
                ) by {
                    if l > j {
                        assert(key_before(keys@, right@[j as int], right@[l]));
                    }
                }
            } else {
                assert forall|l: int| i <= l < left.len() implies key_before(
                    keys@,
                    right@[j as int],
                    left@[l],
                ) by {
                    if l > i {
                        assert(key_before(keys@, left@[i as int], left@[l]));
                    }
                }
            }
        }
        if take_left {
            let value: usize = left[i];
            out.push(value);
            i += 1;
        } else {
            let value: usize = right[j];
            out.push(value);
            j += 1;
        }
        proof {
            assert forall|x: usize| before.contains(x) implies out@.contains(x) by {
                let k = choose|k: int| 0 <= k < before.len() && before[k] == x;
                assert(out@[k] == x);
            }
            assert(out@[out.len() - 1] == out@.last());
        }
    }
    proof {
        assert forall|x: usize| lo <= x < hi implies #[trigger] out@.contains(x) by {
            if x < mid {
                assert(left@.contains(x));
            } else {
                assert(right@.contains(x));
            }
        }
    }
    out
}

/// The stable sorting permutation of the keys.
pub fn sorted_indices(keys: &Vec<i128>) -> (order: Vec<usize>)
    ensures
        stable_order(keys@, order@),
{
    sort_run(keys, 0, keys.len())
}

/// The distinct values in ascending order.
pub fn unique(values: Vec<u32>) -> (r: Vec<u32>)
    ensures
        lists_distinct(r@, values@),
        r.len() <= values.len(),
{
    let mut keys: Vec<i128> = Vec::new();
    for i in 0..values.len()
        invariant
            keys.len() == i,
            forall|k: int| 0 <= k < i ==> keys@[k] == values@[k],
    {
        keys.push(values[i] as i128);
    }
    let order = sorted_indices(&keys);
    let mut r: Vec<u32> = Vec::new();
    for i in 0..order.len()
        invariant
            keys.len() == values.len(),
            forall|k: int| 0 <= k < keys.len() ==> keys@[k] == values@[k],
            stable_order(keys@, order@),
            r.len() <= i,
            ascending(r@),
            forall|k: int| 0 <= k < r.len() ==> values@.contains(#[trigger] r@[k]),
            forall|k: int| 0 <= k < i ==> r@.contains(values@[#[trigger] order@[k] as int]),
            i == 0 ==> r.len() == 0,
            i > 0 ==> r.len() > 0 && r@.last() == values@[order@[i - 1] as int],
    {
        let value: u32 = values[order[i]];
        assert(values@.contains(value));
        let ghost before = r@;
        if i > 0 {
            assert(key_before(keys@, order@[i - 1], order@[i as int]));
        }
        if r.len() == 0 || r[r.len() - 1] != value {
            r.push(value);
        }
        proof {
            assert forall|x: u32| before.contains(x) implies r@.contains(x) by {
                let k = choose|k: int| 0 <= k < before.len() && before[k] == x;
                assert(r@[k] == x);
            }
            assert(r@[r.len() - 1] == value);
            assert(r@.contains(value));
        }
    }
    proof {
        assert forall|x: u32| values@.contains(x) implies r@.contains(x) by {
            let k = choose|k: int| 0 <= k < values.len() && values@[k] == x;
            assert(order@.contains(k as usize));
            let p = choose|p: int| 0 <= p < order.len() && order@[p] == k as usize;
            assert(r@.contains(values@[order@[p] as int]));
        }
    }
    r
}

/// Two ascending lists of one set are the same list.
pub proof fn ascending_determined(a: Seq<u32>, b: Seq<u32>)
    requires
        ascending(a),
        ascending(b),
        forall|x: u32| a.contains(x) <==> b.contains(x),
    ensures
        a == b,
    decreases a.len(),
{
    if a.len() == 0 {
        if b.len() > 0 {
            assert(b.contains(b[0]));
        }
        assert(a =~= b);
    } else {
        assert(a.contains(a.last()));
        assert(b.len() > 0);
        assert(b.contains(b.last()));
        let i = choose|i: int| 0 <= i < a.len() && a[i] == b.last();
        let j = choose|j: int| 0 <= j < b.len() && b[j] == a.last();
        assert(a.last() == b.last());
        let c = a.drop_last();
        let d = b.drop_last();
        assert forall|x: u32| c.contains(x) <==> d.contains(x) by {
            if c.contains(x) {
                let k = choose|k: int| 0 <= k < c.len() && c[k] == x;
                assert(a[k] == x);
                assert(b.contains(x));
                let l = choose|l: int| 0 <= l < b.len() && b[l] == x;
                assert(d[l] == x);
            }
            if d.contains(x) {
                let k = choose|k: int| 0 <= k < d.len() && d[k] == x;
                assert(b[k] == x);
                assert(a.contains(x));
                let l = choose|l: int| 0 <= l < a.len() && a[l] == x;
                assert(c[l] == x);
            }
        }
        ascending_determined(c, d);
        assert(a =~= c.push(a.last()));
        assert(b =~= d.push(b.last()));
    }
}

/// The same of index lists.
pub proof fn ascending_indices_determined(a: Seq<usize>, b: Seq<usize>)
    requires
        ascending_indices(a),
        ascending_indices(b),
        forall|x: usize| a.contains(x) <==> b.contains(x),
    ensures
        a == b,
    decreases a.len(),
{
    if a.len() == 0 {
        if b.len() > 0 {
            assert(b.contains(b[0]));
        }
        assert(a =~= b);
    } else {
        assert(a.contains(a.last()));
        assert(b.len() > 0);
        assert(b.contains(b.last()));
        let i = choose|i: int| 0 <= i < a.len() && a[i] == b.last();
        let j = choose|j: int| 0 <= j < b.len() && b[j] == a.last();
        assert(a.last() == b.last());
        let c = a.drop_last();
        let d = b.drop_last();
        assert forall|x: usize| c.contains(x) <==> d.contains(x) by {
            if c.contains(x) {
                let k = choose|k: int| 0 <= k < c.len() && c[k] == x;
                assert(a[k] == x);
                assert(b.contains(x));
                let l = choose|l: int| 0 <= l < b.len() && b[l] == x;
                assert(d[l] == x);
            }
            if d.contains(x) {
                let k = choose|k: int| 0 <= k < d.len() && d[k] == x;
                assert(b[k] == x);
                assert(a.contains(x));
                let l = choose|l: int| 0 <= l < a.len() && a[l] == x;
                assert(c[l] == x);
            }
        }
        ascending_indices_determined(c, d);
        assert(a =~= c.push(a.last()));
        assert(b =~= d.push(b.last()));
    }
}

proof fn ordered_determined(keys: Seq<i128>, a: Seq<usize>, b: Seq<usize>)
    requires
        forall|i: int, j: int| 0 <= i < j < a.len() ==> key_before(keys, #[trigger] a[i], #[trigger] a[j]),
        forall|i: int, j: int| 0 <= i < j < b.len() ==> key_before(keys, #[trigger] b[i], #[trigger] b[j]),
        forall|x: usize| #[trigger] a.contains(x) <==> b.contains(x),
    ensures
        a == b,
    decreases a.len(),
{
    if a.len() == 0 {
        if b.len() > 0 {
            assert(b.contains(b[0]));
            assert(a.contains(b[0]));
        }
        assert(a =~= b);
    } else {
        let n = a.len() - 1;
        assert(a.contains(a[n]));
        assert(b.contains(a[n]));
        let j = choose|j: int| 0 <= j < b.len() && b[j] == a[n];
        let m = b.len() - 1;
        assert(b.contains(b[m]));
        assert(a.contains(b[m]));
        let i = choose|i: int| 0 <= i < a.len() && a[i] == b[m];
        assert(i == n && j == m) by {
            if i < n && j < m {
                assert(key_before(keys, a[i], a[n]));
                assert(key_before(keys, b[j], b[m]));
            } else if i < n {
                assert(key_before(keys, a[i], a[n]));
            } else if j < m {
                assert(key_before(keys, b[j], b[m]));
            }
        }
        let (c, d) = (a.drop_last(), b.drop_last());
        assert forall|x: usize| #[trigger] c.contains(x) <==> d.contains(x) by {
            if c.contains(x) {
                let k = choose|k: int| 0 <= k < c.len() && c[k] == x;
                assert(key_before(keys, a[k], a[n]));
                assert(a.contains(x));
                assert(b.contains(x));
                let l = choose|l: int| 0 <= l < b.len() && b[l] == x;
                assert(d[l] == x);
            }
            if d.contains(x) {
                let l = choose|l: int| 0 <= l < d.len() && d[l] == x;
                assert(key_before(keys, b[l], b[m]));
                assert(b.contains(x));
                assert(a.contains(x));
                let k = choose|k: int| 0 <= k < a.len() && a[k] == x;
                assert(c[k] == x);
            }
        }
        ordered_determined(keys, c, d);
        assert(a =~= c.push(a[n]));
        assert(b =~= d.push(b[m]));
    }
}

/// There is only one stable sorting permutation.
pub proof fn stable_order_determined(keys: Seq<i128>, a: Seq<usize>, b: Seq<usize>)
    requires
        stable_order(keys, a),
        stable_order(keys, b),
    ensures
        a == b,
{
    assert forall|x: usize| #[trigger] a.contains(x) <==> b.contains(x) by {
        if a.contains(x) {
            let k = choose|k: int| 0 <= k < a.len() && a[k] == x;
            assert(a[k] < keys.len());
        }
        if b.contains(x) {
            let k = choose|k: int| 0 <= k < b.len() && b[k] == x;
            assert(b[k] < keys.len());
        }
    }
    ordered_determined(keys, a, b);
}

/// Whether no value occurs twice.
pub fn all_distinct(values: &Vec<usize>) -> (r: bool)
    ensures
        r == values@.no_duplicates(),
{
    let mut seen = Registry::new();
    let mut i: usize = 0;
    while i < values.len()
        invariant
            i <= values.len(),
            values@.take(i as int).no_duplicates(),
            forall|x: u64| #[trigger]
                seen@.dom().contains(x) ==> exists|k: int| 0 <= k < i && values@[k] == x,
            forall|k: int| 0 <= k < i ==> seen@.dom().contains(#[trigger] values@[k] as u64),
        decreases values.len() - i,
    {
        let value: usize = values[i];
        if seen.contains(value as u64) {
            let ghost k = choose|k: int| 0 <= k < i && values@[k] == value as u64;
            assert(values@[k] == values@[i as int]);
            return false;
        }
        seen.insert(value as u64, i);
        assert(values@.take(i + 1) =~= values@.take(i as int).push(value));
        i += 1;
    }
    assert(values@.take(i as int) =~= values@);
    true
}

/// The same list again.
pub fn copy_ids(values: &Vec<u32>) -> (r: Vec<u32>)
    ensures
        r@ == values@,
{
    let mut r: Vec<u32> = Vec::new();
    let mut i: usize = 0;
    while i < values.len()
        invariant
            i <= values.len(),
            r@ == values@.take(i as int),
        decreases values.len() - i,
    {
        r.push(values[i]);
        assert(values@.take(i + 1) =~= values@.take(i as int).push(values@[i as int]));
        i += 1;
    }
    assert(values@.take(i as int) =~= values@);
    r
}

/// The same list of indices again.
pub fn copy_indices(values: &Vec<usize>) -> (r: Vec<usize>)
    ensures
        r@ == values@,
{
    let mut r: Vec<usize> = Vec::new();
    let mut i: usize = 0;
    while i < values.len()
        invariant
            i <= values.len(),
            r@ == values@.take(i as int),
        decreases values.len() - i,
    {
        r.push(values[i]);
        assert(values@.take(i + 1) =~= values@.take(i as int).push(values@[i as int]));
        i += 1;
    }
    assert(values@.take(i as int) =~= values@);
    r
}

/// Whether no identifier occurs twice.
pub fn all_distinct_ids(values: &Vec<u32>) -> (r: bool)
    ensures
        r == values@.no_duplicates(),
{
    let mut seen = Registry::new();
    let mut i: usize = 0;
    while i < values.len()
        invariant
            i <= values.len(),
            values@.take(i as int).no_duplicates(),
            forall|x: u64| #[trigger]
                seen@.dom().contains(x) ==> exists|k: int| 0 <= k < i && values@[k] == x,
            forall|k: int| 0 <= k < i ==> seen@.dom().contains(#[trigger] values@[k] as u64),
        decreases values.len() - i,
    {
        let value: u32 = values[i];
        if seen.contains(value as u64) {
            let ghost k = choose|k: int| 0 <= k < i && values@[k] == value as u64;
            assert(values@[k] == values@[i as int]);
            return false;
        }
        seen.insert(value as u64, i);
        assert(values@.take(i + 1) =~= values@.take(i as int).push(value));
        i += 1;
    }
    assert(values@.take(i as int) =~= values@);
    true
}

/// Whether the identifier occurs in the list.
pub fn lists_id(values: &Vec<u32>, wanted: u32) -> (r: bool)
    ensures
        r == values@.contains(wanted),
{
    let mut i: usize = 0;
    while i < values.len()
        invariant
            i <= values.len(),
            forall|k: int| 0 <= k < i ==> values@[k] != wanted,
        decreases values.len() - i,
    {
        if values[i] == wanted {
            assert(values@[i as int] == wanted);
            return true;
        }
        i += 1;
    }
    false
}

/// Whether the index occurs in the list.
pub fn lists_index(values: &Vec<usize>, wanted: usize) -> (r: bool)
    ensures
        r == values@.contains(wanted),
{
    let mut i: usize = 0;
    while i < values.len()
        invariant
            i <= values.len(),
            forall|k: int| 0 <= k < i ==> values@[k] != wanted,
        decreases values.len() - i,
    {
        if values[i] == wanted {
            assert(values@[i as int] == wanted);
            return true;
        }
        i += 1;
    }
    false
}

/// Appends a list to another one.
pub fn append_ids(target: &mut Vec<u32>, values: &Vec<u32>)
    ensures
        final(target)@ == old(target)@ + values@,
{
    let mut i: usize = 0;
    while i < values.len()
        invariant
            i <= values.len(),
            target@ == old(target)@ + values@.take(i as int),
        decreases values.len() - i,
    {
        target.push(values[i]);
        assert(target@ =~= old(target)@ + values@.take(i + 1));
        i += 1;
    }
    assert(values@.take(i as int) =~= values@);
}

/// Finds an identifier in an ascending list.
pub fn find_id(ids: &Vec<u32>, wanted: u32) -> (r: Option<usize>)
    requires
        ascending(ids@),
    ensures
        match r {
            Some(i) => i < ids.len() && ids@[i as int] == wanted,
            None => !ids@.contains(wanted),
        },
{
    let mut low: usize = 0;
    let mut high: usize = ids.len();
    while low < high
        invariant
            low <= high <= ids.len(),
            ascending(ids@),
            forall|k: int| 0 <= k < low ==> #[trigger] ids@[k] < wanted,
            forall|k: int| high <= k < ids.len() ==> #[trigger] ids@[k] > wanted,
        decreases high - low,
    {
        let middle: usize = low + (high - low) / 2;
        if ids[middle] == wanted {
            return Some(middle);
        }
        if ids[middle] < wanted {
            low = middle + 1;
        } else {
            high = middle;
        }
    }
    None
}

/// Strictly increasing keys.
pub open spec fn ascending_keys(s: Seq<i128>) -> bool {
    forall|i: int, j: int| 0 <= i < j < s.len() ==> s[i] < s[j]
}

pub open spec fn lists_distinct_keys(r: Seq<i128>, s: Seq<i128>) -> bool {
    &&& ascending_keys(r)
    &&& forall|x: i128| r.contains(x) <==> s.contains(x)
}

/// The distinct indices in ascending order.
pub fn unique_indices(values: Vec<usize>) -> (r: Vec<usize>)
    ensures
        lists_distinct_indices(r@, values@),
        r.len() <= values.len(),
{
    let mut keys: Vec<i128> = Vec::new();
    for i in 0..values.len()
        invariant
            keys.len() == i,
            forall|k: int| 0 <= k < i ==> keys@[k] == values@[k],
    {
        keys.push(values[i] as i128);
    }
    let order = sorted_indices(&keys);
    let mut r: Vec<usize> = Vec::new();
    for i in 0..order.len()
        invariant
            keys.len() == values.len(),
            forall|k: int| 0 <= k < keys.len() ==> keys@[k] == values@[k],
            stable_order(keys@, order@),
            r.len() <= i,
            ascending_indices(r@),
            forall|k: int| 0 <= k < r.len() ==> values@.contains(#[trigger] r@[k]),
            forall|k: int| 0 <= k < i ==> r@.contains(values@[#[trigger] order@[k] as int]),
            i == 0 ==> r.len() == 0,
            i > 0 ==> r.len() > 0 && r@.last() == values@[order@[i - 1] as int],
    {
        let value: usize = values[order[i]];
        assert(values@.contains(value));
        let ghost before = r@;
        if i > 0 {
            assert(key_before(keys@, order@[i - 1], order@[i as int]));
        }
        if r.len() == 0 || r[r.len() - 1] != value {
            r.push(value);
        }
        proof {
            assert forall|x: usize| before.contains(x) implies r@.contains(x) by {
                let k = choose|k: int| 0 <= k < before.len() && before[k] == x;
                assert(r@[k] == x);
            }
            assert(r@[r.len() - 1] == value);
            assert(r@.contains(value));
        }
    }
    proof {
        assert forall|x: usize| values@.contains(x) implies r@.contains(x) by {
            let k = choose|k: int| 0 <= k < values.len() && values@[k] == x;
            assert(order@.contains(k as usize));
            let p = choose|p: int| 0 <= p < order.len() && order@[p] == k as usize;
            assert(r@.contains(values@[order@[p] as int]));
        }
    }
    r
}

/// The distinct keys in ascending order.
pub fn unique_keys(values: Vec<i128>) -> (r: Vec<i128>)
    ensures
        lists_distinct_keys(r@, values@),
        r.len() <= values.len(),
{
    let mut keys: Vec<i128> = Vec::new();
    for i in 0..values.len()
        invariant
            keys.len() == i,
            forall|k: int| 0 <= k < i ==> keys@[k] == values@[k],
    {
        keys.push(values[i]);
    }
    let order = sorted_indices(&keys);
    let mut r: Vec<i128> = Vec::new();
    for i in 0..order.len()
        invariant
            keys.len() == values.len(),
            forall|k: int| 0 <= k < keys.len() ==> keys@[k] == values@[k],
            stable_order(keys@, order@),
            r.len() <= i,
            ascending_keys(r@),
            forall|k: int| 0 <= k < r.len() ==> values@.contains(#[trigger] r@[k]),
            forall|k: int| 0 <= k < i ==> r@.contains(values@[#[trigger] order@[k] as int]),
            i == 0 ==> r.len() == 0,
            i > 0 ==> r.len() > 0 && r@.last() == values@[order@[i - 1] as int],
    {
        let value: i128 = values[order[i]];
        assert(values@.contains(value));
        let ghost before = r@;
        if i > 0 {
            assert(key_before(keys@, order@[i - 1], order@[i as int]));
        }
        if r.len() == 0 || r[r.len() - 1] != value {
            r.push(value);
        }
        proof {
            assert forall|x: i128| before.contains(x) implies r@.contains(x) by {
                let k = choose|k: int| 0 <= k < before.len() && before[k] == x;
                assert(r@[k] == x);
            }
            assert(r@[r.len() - 1] == value);
            assert(r@.contains(value));
        }
    }
    proof {
        assert forall|x: i128| values@.contains(x) implies r@.contains(x) by {
            let k = choose|k: int| 0 <= k < values.len() && values@[k] == x;
            assert(order@.contains(k as usize));
            let p = choose|p: int| 0 <= p < order.len() && order@[p] == k as usize;
            assert(r@.contains(values@[order@[p] as int]));
        }
    }
    r
}

/// Finds a key in an ascending list.
pub fn find_key(keys: &Vec<i128>, wanted: i128) -> (r: Option<usize>)
    requires
        ascending_keys(keys@),
    ensures
        match r {
            Some(i) => i < keys.len() && keys@[i as int] == wanted,
            None => !keys@.contains(wanted),
        },
{
    let mut low: usize = 0;
    let mut high: usize = keys.len();
    while low < high
        invariant
            low <= high <= keys.len(),
            ascending_keys(keys@),
            forall|k: int| 0 <= k < low ==> #[trigger] keys@[k] < wanted,
            forall|k: int| high <= k < keys.len() ==> #[trigger] keys@[k] > wanted,
        decreases high - low,
    {
        let middle: usize = low + (high - low) / 2;
        if keys[middle] == wanted {
            return Some(middle);
        }
        if keys[middle] < wanted {
            low = middle + 1;
        } else {
            high = middle;
        }
    }
    None
}

/// Finds an index in an ascending list.
pub fn find_index(list: &Vec<usize>, wanted: usize) -> (r: Option<usize>)
    requires
        ascending_indices(list@),
    ensures
        match r {
            Some(i) => i < list.len() && list@[i as int] == wanted,
            None => !list@.contains(wanted),
        },
{
    let mut low: usize = 0;
    let mut high: usize = list.len();
    while low < high
        invariant
            low <= high <= list.len(),
            ascending_indices(list@),
            forall|k: int| 0 <= k < low ==> #[trigger] list@[k] < wanted,
            forall|k: int| high <= k < list.len() ==> #[trigger] list@[k] > wanted,
        decreases high - low,
    {
        let middle: usize = low + (high - low) / 2;
        if list[middle] == wanted {
            return Some(middle);
        }
        if list[middle] < wanted {
            low = middle + 1;
        } else {
            high = middle;
        }
    }
    None
}

/// `i` is the last place of the value.
pub open spec fn last_place(values: Seq<u32>, value: u32, i: int) -> bool {
    &&& 0 <= i < values.len()
    &&& values[i] == value
    &&& forall|j: int| i < j < values.len() ==> values[j] != value
}

/// The distinct values, ascending, each with its last place.
pub open spec fn last_places(ids: Seq<u32>, places: Seq<usize>, values: Seq<u32>) -> bool {
    &&& lists_distinct(ids, values)
    &&& places.len() == ids.len()
    &&& forall|k: int|
        0 <= k < ids.len() ==> last_place(values, ids[k], #[trigger] places[k] as int)
}

#[verifier::loop_isolation(false)]
pub fn distinct_last(values: &Vec<u32>) -> (r: (Vec<u32>, Vec<usize>))
    ensures
        last_places(r.0@, r.1@, values@),
{
    let mut last = Registry::new();
    let mut i: usize = 0;
    while i < values.len()
        invariant
            i <= values.len(),
            forall|x: u32| #[trigger]
                last@.dom().contains(x as u64) ==> last_place(values@.take(i as int), x, last@[x as u64] as int),
            forall|j: int| 0 <= j < i ==> last@.dom().contains(#[trigger] values@[j] as u64),
        decreases values.len() - i,
    {
        let ghost before = last@;
        last.insert(values[i] as u64, i);
        proof {
            let short = values@.take(i as int);
            let long = values@.take(i + 1);
            assert forall|x: u32| #[trigger] last@.dom().contains(x as u64) implies last_place(long, x, last@[x as u64] as int) by {
                if x != values@[i as int] {
                    assert(before.dom().contains(x as u64));
                    let k = before[x as u64] as int;
                    assert(last_place(short, x, k));
                    assert(long[k] == short[k]);
                    assert forall|j: int| k < j < long.len() implies long[j] != x by {
                        if j < short.len() {
                            assert(short[j] == long[j]);
                        }
                    }
                }
            }
        }
        i += 1;
    }
    assert(values@.take(values.len() as int) =~= values@);
    let ids = unique(copy_ids(values));
    let mut places: Vec<usize> = Vec::new();
    let mut k: usize = 0;
    while k < ids.len()
        invariant
            k <= ids.len(),
            places.len() == k,
            forall|m: int| 0 <= m < k ==> last_place(values@, ids@[m], #[trigger] places@[m] as int),
        decreases ids.len() - k,
    {
        proof {
            assert(ids@.contains(ids@[k as int]));
            assert(values@.contains(ids@[k as int]));
        }
        match last.get(ids[k] as u64) {
            Some(place) => {
                places.push(place);
            },
            None => {
                assert(false);
            },
        }
        k += 1;
    }
    (ids, places)
}

/// The order of two places by several keys, the first one deciding first. Where all
/// are equal the places themselves decide.
pub open spec fn before_by(keys: Seq<Vec<i128>>, depth: int, a: usize, b: usize) -> bool
    decreases keys.len() - depth,
{
    if depth < 0 || depth >= keys.len() {
        a < b
    } else {
        keys[depth]@[a as int] < keys[depth]@[b as int] || (keys[depth]@[a as int] == keys[depth]@[b as int]
            && before_by(keys, depth + 1, a, b))
    }
}

/// All places, in the order of the keys.
pub open spec fn ordered_by(keys: Seq<Vec<i128>>, depth: int, n: int, order: Seq<usize>) -> bool {
    &&& order.len() == n
    &&& forall|i: int| 0 <= i < n ==> #[trigger] order[i] < n
    &&& forall|x: usize| x < n ==> #[trigger] order.contains(x)
    &&& forall|i: int, j: int|
        0 <= i < j < n ==> before_by(keys, depth, #[trigger] order[i], #[trigger] order[j])
}

/// Sorts an order by one more key that decides before the others.
#[verifier::loop_isolation(false)]
fn refine_order(keys: &Vec<Vec<i128>>, depth: usize, n: usize, order: &Vec<usize>) -> (r: Vec<usize>)
    requires
        depth < keys@.len(),
        keys@[depth as int]@.len() == n,
        ordered_by(keys@, depth + 1, n as int, order@),
    ensures
        ordered_by(keys@, depth as int, n as int, r@),
{
    let own = &keys[depth];
    let mut moved: Vec<i128> = Vec::new();
    let mut k: usize = 0;
    while k < n
        invariant
            k <= n,
            moved@.len() == k,
            forall|i: int| 0 <= i < k ==> #[trigger] moved@[i] == own@[order@[i] as int],
        decreases n - k,
    {
        moved.push(own[order[k]]);
        k += 1;
    }
    let inner = sorted_indices(&moved);
    let mut r: Vec<usize> = Vec::new();
    let mut k: usize = 0;
    while k < n
        invariant
            k <= n,
            r@.len() == k,
            forall|i: int| 0 <= i < k ==> #[trigger] r@[i] == order@[inner@[i] as int],
        decreases n - k,
    {
        r.push(order[inner[k]]);
        k += 1;
    }
    proof {
        assert forall|x: usize| x < n implies #[trigger] r@.contains(x) by {
            assert(order@.contains(x));
            let i = choose|i: int| 0 <= i < order@.len() && order@[i] == x;
            assert(inner@.contains(i as usize));
            let j = choose|j: int| 0 <= j < inner@.len() && inner@[j] == i as usize;
            assert(r@[j] == x);
        }
        assert forall|i: int, j: int| 0 <= i < j < n implies before_by(keys@, depth as int, #[trigger] r@[i], #[trigger] r@[j]) by {
            assert(key_before(moved@, inner@[i], inner@[j]));
            let a = inner@[i] as int;
            let b = inner@[j] as int;
            assert(moved@[a] == own@[order@[a] as int]);
            assert(moved@[b] == own@[order@[b] as int]);
            if moved@[a] == moved@[b] {
                assert(before_by(keys@, depth + 1, order@[a], order@[b]));
            }
        }
    }
    r
}

/// Sorts places by several keys, the first one deciding first.
#[verifier::loop_isolation(false)]
pub fn sorted_by_keys(keys: &Vec<Vec<i128>>, n: usize) -> (order: Vec<usize>)
    requires
        forall|d: int| 0 <= d < keys@.len() ==> (#[trigger] keys@[d])@.len() == n,
    ensures
        ordered_by(keys@, 0, n as int, order@),
{
    let mut order: Vec<usize> = Vec::new();
    let mut k: usize = 0;
    while k < n
        invariant
            k <= n,
            order@.len() == k,
            forall|i: int| 0 <= i < k ==> #[trigger] order@[i] == i,
        decreases n - k,
    {
        order.push(k);
        k += 1;
    }
    assert(ordered_by(keys@, keys@.len() as int, n as int, order@)) by {
        assert forall|x: usize| x < n implies #[trigger] order@.contains(x) by {
            assert(order@[x as int] == x);
        }
    }
    let mut depth: usize = keys.len();
    while depth > 0
        invariant
            depth <= keys@.len(),
            ordered_by(keys@, depth as int, n as int, order@),
        decreases depth,
    {
        depth -= 1;
        order = refine_order(keys, depth, n, &order);
    }
    order
}

/// A list with one more item holds what it held, and the item.
pub proof fn pushed_contains<A>(s: Seq<A>, a: A, x: A)
    ensures
        s.push(a).contains(x) <==> s.contains(x) || x == a,
{
    if s.contains(x) {
        let k = choose|k: int| 0 <= k < s.len() && s[k] == x;
        assert(s.push(a)[k] == x);
    }
    assert(s.push(a)[s.len() as int] == a);
    if s.push(a).contains(x) && x != a {
        let k = choose|k: int| 0 <= k < s.push(a).len() && s.push(a)[k] == x;
        assert(s[k] == x);
    }
}

/// Sorting only moves: every place occurs once, keys do not fall, and places with equal keys
/// keep their order.
pub proof fn sorting_only_moves(keys: Seq<i128>, order: Seq<usize>)
    requires
        stable_order(keys, order),
        keys.len() <= usize::MAX,
    ensures
        order.len() == keys.len(),
        order.no_duplicates(),
        forall|x: usize| #[trigger] order.contains(x) <==> x < keys.len(),
        forall|i: int, j: int| 0 <= i < j < order.len() ==> keys[order[i] as int] <= keys[order[j] as int],
        forall|i: int, j: int|
            0 <= i < j < order.len() && keys[order[i] as int] == keys[order[j] as int] ==> order[i] < order[j],
{
    assert forall|i: int, j: int| 0 <= i < j < order.len() implies order[i] != order[j] && keys[order[i] as int] <= keys[order[j] as int] by {
        assert(key_before(keys, order[i], order[j]));
    }
    assert forall|i: int, j: int|
        0 <= i < j < order.len() && keys[order[i] as int] == keys[order[j] as int] implies order[i] < order[j] by {
        assert(key_before(keys, order[i], order[j]));
    }
}

/// Distinct values are listed once each, ascending; and a list that is that already is its own.
pub proof fn distinct_values_stay(s: Seq<u32>)
    requires
        ascending(s),
    ensures
        lists_distinct(s, s),
        s.no_duplicates(),
        forall|r: Seq<u32>| #[trigger] lists_distinct(r, s) ==> r == s,
{
    assert forall|r: Seq<u32>| #[trigger] lists_distinct(r, s) implies r == s by {
        ascending_determined(r, s);
    }
}

/// Every value is listed once, with a place where it stands and after which it stands no more.
pub proof fn last_places_hold_their_value(ids: Seq<u32>, places: Seq<usize>, values: Seq<u32>, i: int)
    requires
        last_places(ids, places, values),
        0 <= i < values.len(),
    ensures
        exists|k: int| 0 <= k < ids.len() && #[trigger] ids[k] == values[i] && values[places[k] as int] == values[i] && i <= places[k],
{
    assert(values.contains(values[i]));
    assert(ids.contains(values[i]));
    let k = choose|k: int| 0 <= k < ids.len() && ids[k] == values[i];
    assert(last_place(values, ids[k], places[k] as int));
    assert(ids[k] == values[i]);
}

} // verus!
