//! Numbers that several lists share out among themselves.
use vstd::prelude::*;

verus! {

/// List `p` holds the number at place `k`.
pub open spec fn held_at(lists: Seq<Seq<u32>>, id: u32, p: int, k: int) -> bool {
    0 <= p < lists.len() && 0 <= k < lists[p].len() && lists[p][k] == id
}

pub open spec fn held(lists: Seq<Seq<u32>>, id: u32) -> bool {
    exists|p: int, k: int| #[trigger] held_at(lists, id, p, k)
}

/// Each of the numbers stands in exactly one of the lists, once, and no other stands in
/// any.
pub open spec fn shared_out(lists: Seq<Seq<u32>>, ids: Seq<u32>) -> bool {
    &&& forall|id: u32| #[trigger] held(lists, id) <==> ids.contains(id)
    &&& forall|id: u32, p: int, k: int, q: int, l: int| #[trigger]
        held_at(lists, id, p, k) && #[trigger] held_at(lists, id, q, l) ==> p == q && k == l
}

pub proof fn contains_either(a: Seq<u32>, b: Seq<u32>, id: u32)
    ensures
        (a + b).contains(id) <==> a.contains(id) || b.contains(id),
{
    if a.contains(id) {
        let k = choose|k: int| 0 <= k < a.len() && a[k] == id;
        assert((a + b)[k] == id);
    }
    if b.contains(id) {
        let k = choose|k: int| 0 <= k < b.len() && b[k] == id;
        assert((a + b)[a.len() + k] == id);
    }
    if (a + b).contains(id) {
        let k = choose|k: int| 0 <= k < (a + b).len() && (a + b)[k] == id;
        if k < a.len() {
            assert(a[k] == id);
        } else {
            assert(b[k - a.len()] == id);
        }
    }
}

/// Two sets of lists that share out different numbers share out all of them together.
pub proof fn shares_join(lists: Seq<Seq<u32>>, ids: Seq<u32>, more: Seq<Seq<u32>>, others: Seq<u32>)
    requires
        shared_out(lists, ids),
        shared_out(more, others),
        forall|id: u32| !(ids.contains(id) && #[trigger] others.contains(id)),
    ensures
        shared_out(lists + more, ids + others),
{
    let all = lists + more;
    let n = lists.len() as int;
    assert forall|id: u32, p: int, k: int| #[trigger] held_at(all, id, p, k) implies (if p < n {
        held_at(lists, id, p, k) && ids.contains(id)
    } else {
        held_at(more, id, p - n, k) && others.contains(id)
    }) by {
        if p < n {
            assert(held_at(lists, id, p, k));
            assert(held(lists, id));
        } else {
            assert(held_at(more, id, p - n, k));
            assert(held(more, id));
        }
    }
    assert forall|id: u32| #[trigger] held(all, id) <==> (ids + others).contains(id) by {
        contains_either(ids, others, id);
        if held(all, id) {
            let (p, k) = choose|p: int, k: int| #[trigger] held_at(all, id, p, k);
        }
        if ids.contains(id) {
            assert(held(lists, id));
            let (p, k) = choose|p: int, k: int| #[trigger] held_at(lists, id, p, k);
            assert(held_at(all, id, p, k));
        }
        if others.contains(id) {
            assert(held(more, id));
            let (p, k) = choose|p: int, k: int| #[trigger] held_at(more, id, p, k);
            assert(held_at(all, id, n + p, k));
        }
    }
    assert forall|id: u32, p: int, k: int, q: int, l: int| #[trigger] held_at(all, id, p, k) && #[trigger] held_at(all, id, q, l) implies p == q && k == l by {
        assert(p < n <==> q < n);
        if p < n {
            assert(held_at(lists, id, p, k) && held_at(lists, id, q, l));
        } else {
            assert(held_at(more, id, p - n, k) && held_at(more, id, q - n, l));
        }
    }
}

/// A list without repeats shares out its own numbers.
pub proof fn list_shares(list: Seq<u32>)
    requires
        list.no_duplicates(),
    ensures
        shared_out(seq![list], list),
{
    assert forall|id: u32| #[trigger] held(seq![list], id) <==> list.contains(id) by {
        if held(seq![list], id) {
            let (p, k) = choose|p: int, k: int| #[trigger] held_at(seq![list], id, p, k);
            assert(list[k] == id);
        }
        if list.contains(id) {
            let k = choose|k: int| 0 <= k < list.len() && list[k] == id;
            assert(held_at(seq![list], id, 0, k));
        }
    }
}

/// The numbers of the first groups.
pub open spec fn joined_ids(groups: Seq<Seq<u32>>, upto: int) -> Seq<u32>
    decreases upto,
{
    if upto <= 0 {
        Seq::empty()
    } else {
        joined_ids(groups, upto - 1) + groups[upto - 1]
    }
}

pub proof fn joined_has(groups: Seq<Seq<u32>>, upto: int, id: u32)
    requires
        0 <= upto <= groups.len(),
    ensures
        joined_ids(groups, upto).contains(id) <==> exists|g: int| 0 <= g < upto && (#[trigger] groups[g]).contains(id),
    decreases upto,
{
    if upto > 0 {
        joined_has(groups, upto - 1, id);
        contains_either(joined_ids(groups, upto - 1), groups[upto - 1], id);
    }
}

/// Lists were added that share out the numbers.
pub open spec fn share_added(before: Seq<Seq<u32>>, after: Seq<Seq<u32>>, ids: Seq<u32>) -> bool {
    exists|added: Seq<Seq<u32>>| after == before + added && #[trigger] shared_out(added, ids)
}

/// Lists that are added group by group, each time sharing out the numbers of the group,
/// share out all of them.
pub proof fn shares_accumulate(states: Seq<Seq<Seq<u32>>>, groups: Seq<Seq<u32>>, upto: int)
    requires
        0 <= upto <= groups.len(),
        states.len() == groups.len() + 1,
        states[0].len() == 0,
        forall|g: int| 0 <= g < groups.len() ==> share_added(states[g], states[g + 1], #[trigger] groups[g]),
        forall|g: int, h: int, id: u32|
            0 <= g < h < groups.len() ==> !(#[trigger] groups[g].contains(id) && #[trigger] groups[h].contains(id)),
    ensures
        shared_out(states[upto], joined_ids(groups, upto)),
    decreases upto,
{
    if upto > 0 {
        shares_accumulate(states, groups, upto - 1);
        let g = upto - 1;
        assert(share_added(states[g], states[g + 1], groups[g]));
        let added = choose|added: Seq<Seq<u32>>| states[g + 1] == states[g] + added && #[trigger] shared_out(added, groups[g]);
        assert forall|id: u32| !(joined_ids(groups, g).contains(id) && #[trigger] groups[g].contains(id)) by {
            joined_has(groups, g, id);
        }
        shares_join(states[g], joined_ids(groups, g), added, groups[g]);
    }
}

} // verus!
