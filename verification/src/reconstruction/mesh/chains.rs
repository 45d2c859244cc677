//! Chains of vertices along axes and edges.
use vstd::prelude::*;
use crate::ordering::{sorted_indices, stable_order};
use crate::scalar::Scalar;

verus! {

/// A vertex with its parameter along an axis or an edge.
#[derive(Debug, Clone, Copy, PartialEq, Eq, Structural)]
pub struct ChainNode {
    pub t: Scalar,
    pub vertex: usize,
}

pub open spec fn chain_keys(keys: Seq<i128>, chain: Seq<ChainNode>) -> bool {
    &&& keys.len() == chain.len()
    &&& forall|k: int| 0 <= k < chain.len() ==> #[trigger] keys[k] == chain[k].t.total_rank()
}

/// By ascending parameter, equal ones in their given order.
pub open spec fn by_parameter(order: Seq<usize>, chain: Seq<ChainNode>) -> bool {
    exists|keys: Seq<i128>| #[trigger] chain_keys(keys, chain) && stable_order(keys, order)
}

/// The chain in order; of a run of one vertex the first node stays.
pub open spec fn runs(order: Seq<usize>, chain: Seq<ChainNode>, upto: int) -> Seq<ChainNode>
    decreases upto,
{
    if upto <= 0 {
        Seq::empty()
    } else {
        let rest = runs(order, chain, upto - 1);
        let node = chain[order[upto - 1] as int];
        if rest.len() > 0 && rest.last().vertex == node.vertex {
            rest
        } else {
            rest.push(node)
        }
    }
}

pub open spec fn ordered(result: Seq<ChainNode>, chain: Seq<ChainNode>) -> bool {
    exists|order: Seq<usize>| #[trigger]
        by_parameter(order, chain) && result == runs(order, chain, chain.len() as int)
}

/// Orders a chain by parameter.
#[verifier::loop_isolation(false)]
pub fn order_chain(chain: &Vec<ChainNode>) -> (r: Vec<ChainNode>)
    ensures
        ordered(r@, chain@),
{
    let mut keys: Vec<i128> = Vec::new();
    let mut k: usize = 0;
    while k < chain.len()
        invariant
            k <= chain.len(),
            keys.len() == k,
            forall|m: int| 0 <= m < k ==> #[trigger] keys@[m] == chain@[m].t.total_rank(),
        decreases chain.len() - k,
    {
        keys.push(chain[k].t.total_key() as i128);
        k += 1;
    }
    let order = sorted_indices(&keys);
    assert(chain_keys(keys@, chain@));
    let mut r: Vec<ChainNode> = Vec::new();
    let mut k: usize = 0;
    while k < order.len()
        invariant
            k <= order.len(),
            r@ == runs(order@, chain@, k as int),
        decreases order.len() - k,
    {
        let node = chain[order[k]];
        if r.len() == 0 || r[r.len() - 1].vertex != node.vertex {
            r.push(node);
        }
        k += 1;
    }
    assert(by_parameter(order@, chain@));
    r
}

proof fn runs_step(order: Seq<usize>, chain: Seq<ChainNode>, upto: int, k: int)
    requires
        0 <= upto <= order.len(),
        0 <= k,
        k + 1 < runs(order, chain, upto).len(),
    ensures
        runs(order, chain, upto)[k].vertex != runs(order, chain, upto)[k + 1].vertex,
    decreases upto,
{
    if upto > 0 {
        let rest = runs(order, chain, upto - 1);
        if k + 1 < rest.len() {
            runs_step(order, chain, upto - 1, k);
        }
    }
}

/// No vertex of an ordered chain follows itself.
pub proof fn ordered_chain_has_no_repeat(result: Seq<ChainNode>, chain: Seq<ChainNode>, k: int)
    requires
        ordered(result, chain),
        0 <= k,
        k + 1 < result.len(),
    ensures
        result[k].vertex != result[k + 1].vertex,
{
    let order = choose|order: Seq<usize>| #[trigger]
        by_parameter(order, chain) && result == runs(order, chain, chain.len() as int);
    let keys = choose|keys: Seq<i128>| #[trigger] chain_keys(keys, chain) && stable_order(keys, order);
    assert(order.len() == chain.len());
    runs_step(order, chain, chain.len() as int, k);
}

pub open spec fn some_coincide(distances: Seq<Scalar>, precision: Scalar) -> bool {
    exists|k: int| 0 <= k < distances.len() && (#[trigger] distances[k]).le(precision)
}

/// Distances between the neighbours of a chain must exceed the precision.
pub fn check_distinct(distances: &Vec<Scalar>, precision: &Scalar) -> (r: Result<(), &'static str>)
    ensures
        match r {
            Ok(_) => !some_coincide(distances@, *precision),
            Err(error) => some_coincide(distances@, *precision) && error@
                == "distinct constraint vertices coincide"@,
        },
{
    let mut k: usize = 0;
    while k < distances.len()
        invariant
            k <= distances.len(),
            forall|m: int| 0 <= m < k ==> !(#[trigger] distances@[m]).le(*precision),
        decreases distances.len() - k,
    {
        if distances[k].at_most(precision) {
            assert(distances@[k as int].le(*precision));
            return Err("distinct constraint vertices coincide");
        }
        k += 1;
    }
    Ok(())
}

/// How many vertices the first links get.
pub open spec fn inserted_before(inserted: Seq<Vec<Scalar>>, upto: int) -> nat
    decreases upto,
{
    if upto <= 0 {
        0
    } else {
        inserted_before(inserted, upto - 1) + inserted[upto - 1]@.len()
    }
}

pub open spec fn fresh_nodes(parameters: Seq<Scalar>, first: int) -> Seq<ChainNode> {
    Seq::new(
        parameters.len(),
        |i: int| ChainNode { t: parameters[i], vertex: (first + i) as usize },
    )
}

/// The chain with the first links split; new vertices are numbered from `first`.
pub open spec fn split_links(chain: Seq<ChainNode>, inserted: Seq<Vec<Scalar>>, first: int, upto: int) -> Seq<
    ChainNode,
>
    decreases upto,
{
    if upto <= 0 {
        seq![chain[0]]
    } else {
        (split_links(chain, inserted, first, upto - 1) + fresh_nodes(
            inserted[upto - 1]@,
            first + inserted_before(inserted, upto - 1),
        )).push(chain[upto])
    }
}

/// Some link would be split into more pieces than allowed.
pub open spec fn beyond_limit(pieces: Seq<Option<usize>>, limit: usize) -> bool {
    exists|k: int| 0 <= k < pieces.len() && too_many(#[trigger] pieces[k], limit)
}

pub open spec fn too_many(count: Option<usize>, limit: usize) -> bool {
    match count {
        Some(number) => number > limit,
        None => true,
    }
}

proof fn inserted_grows(inserted: Seq<Vec<Scalar>>, a: int, b: int)
    requires
        0 <= a <= b,
    ensures
        inserted_before(inserted, a) <= inserted_before(inserted, b),
    decreases b - a,
{
    if a < b {
        inserted_grows(inserted, a, b - 1);
    }
}

/// Splits the links of a chain. `pieces` says into how many pieces each link
/// falls, where that is a number at all, and `inserted` gives the parameters in
/// between. New vertices are numbered from `first` on.
#[verifier::loop_isolation(false)]
pub fn subdivide(
    chain: &Vec<ChainNode>,
    pieces: &Vec<Option<usize>>,
    inserted: &Vec<Vec<Scalar>>,
    first: usize,
    limit: usize,
) -> (r: Result<Vec<ChainNode>, &'static str>)
    requires
        chain@.len() > 0,
        pieces@.len() == chain@.len() - 1,
        inserted@.len() == pieces@.len(),
        first + inserted_before(inserted@, inserted@.len() as int) <= usize::MAX,
    ensures
        match r {
            Ok(split) => !beyond_limit(pieces@, limit) && split@ == split_links(
                chain@,
                inserted@,
                first as int,
                inserted@.len() as int,
            ),
            Err(error) => beyond_limit(pieces@, limit) && error@ == "constraint subdivision limit"@,
        },
{
    let mut split: Vec<ChainNode> = Vec::new();
    split.push(chain[0]);
    assert(split@ =~= split_links(chain@, inserted@, first as int, 0));
    let mut next: usize = first;
    let mut k: usize = 0;
    while k < pieces.len()
        invariant
            k <= pieces.len(),
            next == first + inserted_before(inserted@, k as int),
            split@ == split_links(chain@, inserted@, first as int, k as int),
            forall|m: int| 0 <= m < k ==> !too_many(#[trigger] pieces@[m], limit),
        decreases pieces.len() - k,
    {
        let allowed: bool = match pieces[k] {
            Some(count) => count <= limit,
            None => false,
        };
        if !allowed {
            assert(too_many(pieces@[k as int], limit));
            return Err("constraint subdivision limit");
        }
        proof {
            inserted_grows(inserted@, k + 1, inserted@.len() as int);
        }
        let ghost start = split@;
        let ghost base = next as int;
        let ghost wanted = fresh_nodes(inserted@[k as int]@, base);
        assert(start + wanted.take(0) =~= start);
        let mut i: usize = 0;
        while i < inserted[k].len()
            invariant
                k < pieces.len(),
                i <= inserted@[k as int]@.len(),
                next == base + i,
                base + inserted@[k as int]@.len() <= usize::MAX,
                split@ == start + wanted.take(i as int),
            decreases inserted@[k as int]@.len() - i,
        {
            let node = ChainNode { t: inserted[k][i], vertex: next };
            split.push(node);
            assert(wanted[i as int] == node);
            assert(wanted.take(i + 1) =~= wanted.take(i as int).push(node));
            assert(split@ =~= start + wanted.take(i + 1));
            next += 1;
            i += 1;
        }
        assert(wanted.take(i as int) =~= wanted);
        split.push(chain[k + 1]);
        k += 1;
    }
    Ok(split)
}

/// Splitting keeps the vertices that were there.
pub proof fn split_keeps_nodes(chain: Seq<ChainNode>, inserted: Seq<Vec<Scalar>>, first: int, upto: int, k: int)
    requires
        0 <= k <= upto < chain.len(),
        inserted.len() >= upto,
    ensures
        split_links(chain, inserted, first, upto).contains(chain[k]),
    decreases upto,
{
    let all = split_links(chain, inserted, first, upto);
    if upto == 0 {
        assert(all[0] == chain[0]);
    } else if k == upto {
        assert(all.last() == chain[upto]);
        assert(all[all.len() - 1] == chain[k]);
    } else {
        split_keeps_nodes(chain, inserted, first, upto - 1, k);
        let rest = split_links(chain, inserted, first, upto - 1);
        let i = choose|i: int| 0 <= i < rest.len() && rest[i] == chain[k];
        assert(all[i] == chain[k]);
    }
}

pub open spec fn vertices_of(chain: Seq<ChainNode>) -> Seq<usize> {
    Seq::new(chain.len(), |k: int| chain[k].vertex)
}

pub fn chain_vertices(chain: &Vec<ChainNode>) -> (r: Vec<usize>)
    ensures
        r@ == vertices_of(chain@),
{
    let mut r: Vec<usize> = Vec::new();
    let mut k: usize = 0;
    while k < chain.len()
        invariant
            k <= chain.len(),
            r.len() == k,
            forall|m: int| 0 <= m < k ==> #[trigger] r@[m] == chain@[m].vertex,
        decreases chain.len() - k,
    {
        r.push(chain[k].vertex);
        k += 1;
    }
    assert(r@ =~= vertices_of(chain@));
    r
}

/// Splitting a link puts its new vertices between its two ends, numbered on and in the order of
/// their parameters as given.
pub proof fn split_links_stand_between_their_ends(chain: Seq<ChainNode>, inserted: Seq<Vec<Scalar>>, first: int, upto: int)
    requires
        0 < upto < chain.len(),
        upto <= inserted.len(),
    ensures
        ({
            let before = split_links(chain, inserted, first, upto - 1);
            let all = split_links(chain, inserted, first, upto);
            let count = inserted[upto - 1]@.len();
            &&& all.len() == before.len() + count + 1
            &&& all.take(before.len() as int) == before
            &&& before.last() == chain[upto - 1]
            &&& all.last() == chain[upto]
            &&& forall|i: int| 0 <= i < count ==> (#[trigger] all[before.len() + i]).t == inserted[upto - 1]@[i]
        }),
        split_links(chain, inserted, first, upto).len() == upto + 1 + inserted_before(inserted, upto),
    decreases upto,
{
    if upto > 1 {
        split_links_stand_between_their_ends(chain, inserted, first, upto - 1);
    }
    let before = split_links(chain, inserted, first, upto - 1);
    let all = split_links(chain, inserted, first, upto);
    assert(all.take(before.len() as int) =~= before);
    if upto == 1 {
        assert(inserted_before(inserted, 0) == 0);
        assert(before =~= seq![chain[0]]);
    }
}

/// New vertices are numbered on from the first free number, each once.
pub proof fn new_vertices_are_numbered_on(chain: Seq<ChainNode>, inserted: Seq<Vec<Scalar>>, first: int, upto: int, i: int)
    requires
        0 < upto < chain.len(),
        upto <= inserted.len(),
        0 <= i < inserted[upto - 1]@.len(),
        0 <= first,
        first + inserted_before(inserted, upto) <= usize::MAX,
    ensures
        ({
            let before = split_links(chain, inserted, first, upto - 1);
            split_links(chain, inserted, first, upto)[before.len() + i].vertex == first + inserted_before(inserted, upto - 1) + i
        }),
{
}

/// How many vertices are new.
pub proof fn new_vertices_are_counted(inserted: Seq<Vec<Scalar>>, upto: int)
    requires
        0 <= upto <= inserted.len(),
    ensures
        inserted_before(inserted, upto) == Seq::new(upto as nat, |k: int| inserted[k]@).flatten().len(),
    decreases upto,
{
    let parts = Seq::new(upto as nat, |k: int| inserted[k]@);
    parts.lemma_flatten_and_flatten_alt_are_equivalent();
    if upto > 0 {
        new_vertices_are_counted(inserted, upto - 1);
        let fewer = Seq::new((upto - 1) as nat, |k: int| inserted[k]@);
        fewer.lemma_flatten_and_flatten_alt_are_equivalent();
        assert(parts.drop_last() =~= fewer);
    }
}

/// A link is split too often exactly when its pieces exceed the limit or cannot be counted.
pub proof fn pieces_have_a_limit(count: Option<usize>, limit: usize)
    ensures
        count is None ==> too_many(count, limit),
        count matches Some(number) ==> (too_many(count, limit) <==> limit < number),
{
}

proof fn runs_keep(order: Seq<usize>, chain: Seq<ChainNode>, upto: int, vertex: usize)
    requires
        0 <= upto <= order.len(),
    ensures
        (exists|k: int| 0 <= k < upto && chain[#[trigger] order[k] as int].vertex == vertex) <==> exists|m: int|
            0 <= m < runs(order, chain, upto).len() && (#[trigger] runs(order, chain, upto)[m]).vertex == vertex,
        upto > 0 ==> runs(order, chain, upto).len() > 0 && runs(order, chain, upto).last().vertex == chain[order[upto - 1] as int].vertex,
        forall|m: int|
            0 <= m < runs(order, chain, upto).len() ==> exists|k: int|
                0 <= k < upto && chain[#[trigger] order[k] as int] == #[trigger] runs(order, chain, upto)[m],
    decreases upto,
{
    if upto > 0 {
        runs_keep(order, chain, upto - 1, vertex);
        let rest = runs(order, chain, upto - 1);
        let all = runs(order, chain, upto);
        let node = chain[order[upto - 1] as int];
        assert(all.last().vertex == node.vertex);
        if exists|k: int| 0 <= k < upto && chain[#[trigger] order[k] as int].vertex == vertex {
            let k = choose|k: int| 0 <= k < upto && chain[#[trigger] order[k] as int].vertex == vertex;
            if k < upto - 1 {
                let m = choose|m: int| 0 <= m < rest.len() && (#[trigger] rest[m]).vertex == vertex;
                assert(all[m] == rest[m]);
            } else {
                assert(all[all.len() - 1].vertex == vertex);
            }
        }
        if exists|m: int| 0 <= m < all.len() && (#[trigger] all[m]).vertex == vertex {
            let m = choose|m: int| 0 <= m < all.len() && (#[trigger] all[m]).vertex == vertex;
            if m < rest.len() {
                assert(rest[m].vertex == vertex);
                let k = choose|k: int| 0 <= k < upto - 1 && chain[#[trigger] order[k] as int].vertex == vertex;
                assert(chain[order[k] as int].vertex == vertex);
            } else {
                assert(chain[order[upto - 1] as int].vertex == vertex);
            }
        }
        assert forall|m: int| 0 <= m < all.len() implies exists|k: int|
            0 <= k < upto && chain[#[trigger] order[k] as int] == #[trigger] all[m] by {
            if m < rest.len() {
                assert(rest[m] == all[m]);
                let k = choose|k: int| 0 <= k < upto - 1 && chain[#[trigger] order[k] as int] == rest[m];
                assert(chain[order[k] as int] == all[m]);
            } else {
                assert(chain[order[upto - 1] as int] == all[m]);
            }
        }
    }
}

/// Ordering a chain keeps all its vertices and brings in no other.
pub proof fn ordered_chains_keep_their_vertices(result: Seq<ChainNode>, chain: Seq<ChainNode>, vertex: usize)
    requires
        ordered(result, chain),
        chain.len() <= usize::MAX,
    ensures
        (exists|k: int| 0 <= k < chain.len() && (#[trigger] chain[k]).vertex == vertex) <==> exists|m: int|
            0 <= m < result.len() && (#[trigger] result[m]).vertex == vertex,
{
    let order = choose|order: Seq<usize>| #[trigger] by_parameter(order, chain) && result == runs(order, chain, chain.len() as int);
    let keys = choose|keys: Seq<i128>| #[trigger] chain_keys(keys, chain) && stable_order(keys, order);
    runs_keep(order, chain, chain.len() as int, vertex);
    if exists|k: int| 0 <= k < chain.len() && (#[trigger] chain[k]).vertex == vertex {
        let k = choose|k: int| 0 <= k < chain.len() && (#[trigger] chain[k]).vertex == vertex;
        assert(order.contains(k as usize));
        let i = choose|i: int| 0 <= i < order.len() && order[i] == k as usize;
        assert(chain[order[i] as int].vertex == vertex);
    }
    if exists|m: int| 0 <= m < result.len() && (#[trigger] result[m]).vertex == vertex {
        let k = choose|k: int| 0 <= k < chain.len() && chain[#[trigger] order[k] as int].vertex == vertex;
        assert(chain[order[k] as int].vertex == vertex);
    }
}

/// Splitting goes beyond the limit exactly when a link has more pieces than allowed, or more
/// than can be counted.
pub proof fn limits_hold_for_every_link(pieces: Seq<Option<usize>>, limit: usize)
    ensures
        !beyond_limit(pieces, limit) <==> forall|k: int|
            0 <= k < pieces.len() ==> ((#[trigger] pieces[k]) matches Some(count) && count <= limit),
{
    if !beyond_limit(pieces, limit) {
        assert forall|k: int| 0 <= k < pieces.len() implies ((#[trigger] pieces[k]) matches Some(count) && count <= limit) by {
            assert(!too_many(pieces[k], limit));
        }
    }
}

} // verus!
