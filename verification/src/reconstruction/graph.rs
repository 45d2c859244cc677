//! Dependency graph for joint geometric solving. Indices refer to the frame;
//! coordinates, properties and source provenance remain owned by that frame.
//! Only explicit source incidences and accepted support families connect objects.
use vstd::prelude::*;
use crate::connectivity::{components_of, components_unique, connected_groups, connected_step, pair_relation, touch};
use crate::ordering::{ascending_indices, ascending_keys, find_key, unique_indices, unique_keys};
use crate::reconstruction::frame;

verus! {

#[derive(Debug, Clone, Copy, PartialEq, Eq, Structural)]
pub enum Entity {
    Vertex(usize),
    Axis(usize),
    Plane(usize),
}

const FAMILY: i128 = 0x1_0000_0000_0000_0000;

impl Entity {
    /// Position in the order of entities: vertices, then axes, then planes.
    pub open spec fn rank(self) -> int {
        match self {
            Entity::Vertex(i) => i as int,
            Entity::Axis(i) => 0x1_0000_0000_0000_0000 + i,
            Entity::Plane(i) => 0x2_0000_0000_0000_0000 + i,
        }
    }

    fn key(self) -> (r: i128)
        ensures
            r == self.rank(),
    {
        match self {
            Entity::Vertex(i) => i as i128,
            Entity::Axis(i) => FAMILY + i as i128,
            Entity::Plane(i) => 2 * FAMILY + i as i128,
        }
    }
}

/// The order tells entities apart.
pub proof fn rank_injective(a: Entity, b: Entity)
    ensures
        a.rank() == b.rank() <==> a == b,
{
}

#[derive(Debug)]
pub struct Component {
    pub vertices: Vec<usize>,
    pub axes: Vec<usize>,
    pub planes: Vec<usize>,
}

#[derive(Debug)]
pub struct Graph {
    /// Structural dependencies, not proximity-based or mechanical ties.
    pub relations: Vec<[Entity; 2]>,
    pub components: Vec<Component>,
}

pub open spec fn normalized(pair: [Entity; 2]) -> [Entity; 2] {
    if pair[0].rank() <= pair[1].rank() {
        pair
    } else {
        [pair[1], pair[0]]
    }
}

pub open spec fn relation_before(a: [Entity; 2], b: [Entity; 2]) -> bool {
    a[0].rank() < b[0].rank() || (a[0].rank() == b[0].rank() && a[1].rank() < b[1].rank())
}

/// The distinct relations, smaller entity first, in ascending order.
pub open spec fn relation_list(list: Seq<[Entity; 2]>, relations: Seq<[Entity; 2]>) -> bool {
    &&& forall|i: int, j: int| 0 <= i < j < list.len() ==> relation_before(list[i], list[j])
    &&& forall|i: int| 0 <= i < list.len() ==> relation_given(relations, #[trigger] list[i])
    &&& forall|k: int|
        0 <= k < relations.len() ==> list.contains(normalized(#[trigger] relations[k]))
}

pub open spec fn relation_given(relations: Seq<[Entity; 2]>, pair: [Entity; 2]) -> bool {
    exists|k: int| 0 <= k < relations.len() && normalized(#[trigger] relations[k]) == pair
}

pub open spec fn mentioned(
    entities: Seq<Entity>,
    relations: Seq<[Entity; 2]>,
    entity: Entity,
) -> bool {
    ||| entities.contains(entity)
    ||| exists|k: int|
        0 <= k < relations.len() && ((#[trigger] relations[k])[0] == entity || relations[k][1]
            == entity)
}

/// All entities that are given or related, in ascending order.
pub open spec fn entity_list(
    all: Seq<Entity>,
    entities: Seq<Entity>,
    relations: Seq<[Entity; 2]>,
) -> bool {
    &&& forall|i: int, j: int| 0 <= i < j < all.len() ==> all[i].rank() < all[j].rank()
    &&& forall|entity: Entity| #[trigger]
        all.contains(entity) <==> mentioned(entities, relations, entity)
}

/// Two entities of the list stand in a given relation.
pub open spec fn related(all: Seq<Entity>, relations: Seq<[Entity; 2]>) -> spec_fn(int, int) -> bool {
    |x: int, y: int|
        exists|k: int|
            0 <= k < relations.len() && (#[trigger] relations[k])[0] == all[x] && relations[k][1]
                == all[y]
}

pub open spec fn vertices_of(all: Seq<Entity>, group: Seq<usize>) -> Seq<usize>
    decreases group.len(),
{
    if group.len() == 0 {
        Seq::empty()
    } else {
        match all[group.last() as int] {
            Entity::Vertex(i) => vertices_of(all, group.drop_last()).push(i),
            _ => vertices_of(all, group.drop_last()),
        }
    }
}

pub open spec fn axes_of(all: Seq<Entity>, group: Seq<usize>) -> Seq<usize>
    decreases group.len(),
{
    if group.len() == 0 {
        Seq::empty()
    } else {
        match all[group.last() as int] {
            Entity::Axis(i) => axes_of(all, group.drop_last()).push(i),
            _ => axes_of(all, group.drop_last()),
        }
    }
}

pub open spec fn planes_of(all: Seq<Entity>, group: Seq<usize>) -> Seq<usize>
    decreases group.len(),
{
    if group.len() == 0 {
        Seq::empty()
    } else {
        match all[group.last() as int] {
            Entity::Plane(i) => planes_of(all, group.drop_last()).push(i),
            _ => planes_of(all, group.drop_last()),
        }
    }
}

/// The members of a group by family, each ascending.
pub open spec fn component_of(component: Component, all: Seq<Entity>, group: Seq<usize>) -> bool {
    &&& component.vertices@ == vertices_of(all, group)
    &&& component.axes@ == axes_of(all, group)
    &&& component.planes@ == planes_of(all, group)
}

/// The components are those of the given relations, ordered by their least
/// entities.
pub open spec fn graph_of(
    graph: Graph,
    entities: Seq<Entity>,
    relations: Seq<[Entity; 2]>,
    all: Seq<Entity>,
    groups: Seq<Vec<usize>>,
) -> bool {
    &&& relation_list(graph.relations@, relations)
    &&& entity_list(all, entities, relations)
    &&& components_of(groups, all.len() as int, related(all, relations))
    &&& graph.components@.len() == groups.len()
    &&& forall|g: int|
        0 <= g < groups.len() ==> component_of(
            #[trigger] graph.components@[g],
            all,
            groups[g]@,
        )
}

pub open spec fn builds(graph: Graph, entities: Seq<Entity>, relations: Seq<[Entity; 2]>) -> bool {
    exists|all: Seq<Entity>, groups: Seq<Vec<usize>>| #[trigger]
        graph_of(graph, entities, relations, all, groups)
}

fn entity_at(key: i128) -> (r: Entity)
    requires
        exists|entity: Entity| #[trigger] entity.rank() == key,
    ensures
        r.rank() == key,
{
    if key < FAMILY {
        Entity::Vertex(key as usize)
    } else if key < 2 * FAMILY {
        Entity::Axis((key - FAMILY) as usize)
    } else {
        Entity::Plane((key - 2 * FAMILY) as usize)
    }
}

spec fn keys_match(keys: Seq<i128>, all: Seq<Entity>) -> bool {
    &&& keys.len() == all.len()
    &&& forall|i: int| 0 <= i < all.len() ==> #[trigger] keys[i] == all[i].rank()
}

#[verifier::loop_isolation(false)]
fn list_entities(entities: &Vec<Entity>, relations: &Vec<[Entity; 2]>) -> (r: (Vec<i128>, Vec<Entity>))
    ensures
        entity_list(r.1@, entities@, relations@),
        keys_match(r.0@, r.1@),
        ascending_keys(r.0@),
{
    let mut raw: Vec<i128> = Vec::new();
    let mut e: usize = 0;
    while e < entities.len()
        invariant
            e <= entities.len(),
            forall|i: int| 0 <= i < raw.len() ==> key_of_mentioned(entities@, relations@, #[trigger] raw@[i]),
            forall|i: int| 0 <= i < e ==> raw@.contains((#[trigger] entities@[i]).rank() as i128),
        decreases entities.len() - e,
    {
        let ghost before = raw@;
        raw.push(entities[e].key());
        proof {
            assert(entities@.contains(entities@[e as int]));
            assert(raw@[raw.len() - 1] == entities@[e as int].rank());
            assert(raw@.drop_last() =~= before);
            extend_keys(before, raw@);
            assert(mentioned(entities@, relations@, entities@[e as int]));
        }
        e += 1;
    }
    let mut k: usize = 0;
    while k < relations.len()
        invariant
            k <= relations.len(),
            forall|i: int| 0 <= i < raw.len() ==> key_of_mentioned(entities@, relations@, #[trigger] raw@[i]),
            forall|i: int| 0 <= i < entities.len() ==> raw@.contains((#[trigger] entities@[i]).rank() as i128),
            forall|i: int|
                0 <= i < k ==> raw@.contains((#[trigger] relations@[i])[0].rank() as i128)
                    && raw@.contains(relations@[i][1].rank() as i128),
        decreases relations.len() - k,
    {
        let ghost before = raw@;
        raw.push(relations[k][0].key());
        let ghost middle = raw@;
        raw.push(relations[k][1].key());
        proof {
            assert(middle[middle.len() - 1] == relations@[k as int][0].rank());
            assert(raw@[raw.len() - 1] == relations@[k as int][1].rank());
            assert(middle.drop_last() =~= before);
            assert(raw@.drop_last() =~= middle);
            extend_keys(before, middle);
            extend_keys(middle, raw@);
            assert(mentioned(entities@, relations@, relations@[k as int][0]));
            assert(mentioned(entities@, relations@, relations@[k as int][1]));
            assert(middle.contains(relations@[k as int][0].rank() as i128));
            assert forall|i: int| 0 <= i < raw.len() implies key_of_mentioned(entities@, relations@, #[trigger] raw@[i]) by {
                if i < before.len() {
                    assert(raw@[i] == before[i]);
                }
            }
        }
        k += 1;
    }
    let ghost source = raw@;
    let keys = unique_keys(raw);
    let mut all: Vec<Entity> = Vec::new();
    let mut i: usize = 0;
    while i < keys.len()
        invariant
            i <= keys.len(),
            all.len() == i,
            forall|j: int| 0 <= j < i ==> #[trigger] keys@[j] == all@[j].rank(),
        decreases keys.len() - i,
    {
        proof {
            assert(keys@.contains(keys@[i as int]));
            assert(source.contains(keys@[i as int]));
            let m = choose|m: int| 0 <= m < source.len() && source[m] == keys@[i as int];
            assert(key_of_mentioned(entities@, relations@, source[m]));
        }
        all.push(entity_at(keys[i]));
        i += 1;
    }
    proof {
        assert forall|i: int, j: int| 0 <= i < j < all@.len() implies all@[i].rank() < all@[j].rank() by {
            assert(keys@[i] < keys@[j]);
        }
        assert forall|entity: Entity| #[trigger] all@.contains(entity) <==> mentioned(entities@, relations@, entity) by {
            let key = entity.rank() as i128;
            if all@.contains(entity) {
                let j = choose|j: int| 0 <= j < all@.len() && all@[j] == entity;
                assert(keys@[j] == entity.rank());
                assert(keys@.contains(keys@[j]));
                assert(source.contains(key));
                let m = choose|m: int| 0 <= m < source.len() && source[m] == key;
                assert(key_of_mentioned(entities@, relations@, source[m]));
                let other = choose|other: Entity| #[trigger] mentioned(entities@, relations@, other) && other.rank() == source[m];
                rank_injective(entity, other);
            }
            if mentioned(entities@, relations@, entity) {
                if entities@.contains(entity) {
                    let m = choose|m: int| 0 <= m < entities@.len() && entities@[m] == entity;
                    assert(source.contains(entities@[m].rank() as i128));
                } else {
                    let m = choose|m: int| 0 <= m < relations@.len() && ((#[trigger] relations@[m])[0] == entity || relations@[m][1] == entity);
                    assert(source.contains(relations@[m][0].rank() as i128));
                }
                assert(source.contains(key));
                assert(keys@.contains(key));
                let j = choose|j: int| 0 <= j < keys@.len() && keys@[j] == key;
                rank_injective(entity, all@[j]);
                assert(all@[j] == entity);
            }
        }
    }
    (keys, all)
}

spec fn key_of_mentioned(entities: Seq<Entity>, relations: Seq<[Entity; 2]>, key: i128) -> bool {
    exists|entity: Entity| #[trigger] mentioned(entities, relations, entity) && entity.rank() == key
}

proof fn extend_keys(before: Seq<i128>, after: Seq<i128>)
    requires
        after.len() == before.len() + 1,
        after.drop_last() == before,
    ensures
        forall|x: i128| before.contains(x) ==> #[trigger] after.contains(x),
        forall|i: int| 0 <= i < before.len() ==> #[trigger] after[i] == before[i],
        after.contains(after[after.len() - 1]),
{
    assert forall|i: int| 0 <= i < before.len() implies #[trigger] after[i] == before[i] by {
        assert(after.drop_last()[i] == after[i]);
    }
    assert forall|x: i128| before.contains(x) implies #[trigger] after.contains(x) by {
        let m = choose|m: int| 0 <= m < before.len() && before[m] == x;
        assert(after[m] == x);
    }
}

proof fn position_unique(all: Seq<Entity>, entities: Seq<Entity>, relations: Seq<[Entity; 2]>, x: int, y: int)
    requires
        entity_list(all, entities, relations),
        0 <= x < all.len(),
        0 <= y < all.len(),
        all[x] == all[y],
    ensures
        x == y,
{
    if x < y {
        assert(all[x].rank() < all[y].rank());
    } else if y < x {
        assert(all[y].rank() < all[x].rank());
    }
}

fn position(keys: &Vec<i128>, all: &Vec<Entity>, entity: Entity) -> (r: usize)
    requires
        keys_match(keys@, all@),
        ascending_keys(keys@),
        all@.contains(entity),
    ensures
        r < all.len(),
        all@[r as int] == entity,
{
    proof {
        let j = choose|j: int| 0 <= j < all@.len() && all@[j] == entity;
        assert(keys@[j] == entity.rank());
        assert(keys@.contains(entity.rank() as i128));
    }
    match find_key(keys, entity.key()) {
        Some(i) => {
            proof {
                rank_injective(entity, all@[i as int]);
            }
            i
        },
        None => 0,
    }
}

#[verifier::loop_isolation(false)]
fn dense_edges(keys: &Vec<i128>, all: &Vec<Entity>, entities: &Vec<Entity>, relations: &Vec<[Entity; 2]>) -> (edges: Vec<
    (usize, usize),
>)
    requires
        entity_list(all@, entities@, relations@),
        keys_match(keys@, all@),
        ascending_keys(keys@),
    ensures
        edges.len() == relations.len(),
        forall|k: int|
            0 <= k < edges.len() ==> (#[trigger] edges@[k]).0 < all.len() && edges@[k].1 < all.len()
                && all@[edges@[k].0 as int] == relations@[k][0] && all@[edges@[k].1 as int]
                == relations@[k][1],
{
    let mut edges: Vec<(usize, usize)> = Vec::new();
    let mut k: usize = 0;
    while k < relations.len()
        invariant
            k <= relations.len(),
            edges.len() == k,
            forall|i: int|
                0 <= i < k ==> (#[trigger] edges@[i]).0 < all.len() && edges@[i].1 < all.len()
                    && all@[edges@[i].0 as int] == relations@[i][0] && all@[edges@[i].1 as int]
                    == relations@[i][1],
        decreases relations.len() - k,
    {
        assert(relations@[k as int][0] == relations@[k as int][0]);
        assert(mentioned(entities@, relations@, relations@[k as int][0]));
        assert(mentioned(entities@, relations@, relations@[k as int][1]));
        let a: usize = position(keys, all, relations[k][0]);
        let b: usize = position(keys, all, relations[k][1]);
        edges.push((a, b));
        k += 1;
    }
    edges
}

spec fn partner_listed(partners: Seq<Vec<usize>>, edges: Seq<(usize, usize)>, upto: int) -> bool {
    &&& forall|a: int, b: usize|
        0 <= a < partners.len() && #[trigger] partners[a]@.contains(b) ==> partner_given(edges, upto, a, b as int)
    &&& forall|k: int|
        0 <= k < upto ==> {
            let (low, high) = if (#[trigger] edges[k]).0 <= edges[k].1 {
                (edges[k].0, edges[k].1)
            } else {
                (edges[k].1, edges[k].0)
            };
            partners[low as int]@.contains(high)
        }
}

spec fn partner_given(edges: Seq<(usize, usize)>, upto: int, a: int, b: int) -> bool {
    a <= b && exists|k: int|
        0 <= k < upto && ((#[trigger] edges[k]).0 == a && edges[k].1 == b || edges[k].0 == b && edges[k].1 == a)
}

#[verifier::loop_isolation(false)]
fn list_partners(n: usize, edges: &Vec<(usize, usize)>) -> (partners: Vec<Vec<usize>>)
    requires
        forall|k: int| 0 <= k < edges.len() ==> (#[trigger] edges@[k]).0 < n && edges@[k].1 < n,
    ensures
        partners.len() == n,
        partner_listed(partners@, edges@, edges@.len() as int),
        forall|a: int| 0 <= a < n ==> ascending_indices((#[trigger] partners@[a])@),
{
    let mut raw: Vec<Vec<usize>> = Vec::new();
    let mut i: usize = 0;
    while i < n
        invariant
            i <= n,
            raw.len() == i,
            forall|a: int| 0 <= a < i ==> (#[trigger] raw@[a])@.len() == 0,
        decreases n - i,
    {
        raw.push(Vec::new());
        i += 1;
    }
    let mut k: usize = 0;
    while k < edges.len()
        invariant
            k <= edges.len(),
            raw.len() == n,
            partner_listed(raw@, edges@, k as int),
        decreases edges.len() - k,
    {
        let (a, b) = edges[k];
        let low: usize = if a <= b { a } else { b };
        let high: usize = if a <= b { b } else { a };
        let ghost before = raw@;
        raw[low].push(high);
        proof {
            assert(raw@[low as int]@ == before[low as int]@.push(high));
            assert(raw@[low as int]@[raw@[low as int]@.len() - 1] == high);
            assert forall|x: int, y: usize| 0 <= x < raw.len() && #[trigger] raw@[x]@.contains(y) implies partner_given(edges@, k + 1, x, y as int) by {
                let m = choose|m: int| 0 <= m < raw@[x]@.len() && raw@[x]@[m] == y;
                if x != low || m < before[x]@.len() {
                    assert(before[x]@[m] == y);
                    assert(before[x]@.contains(y));
                    let j = choose|j: int| 0 <= j < k && ((#[trigger] edges@[j]).0 == x && edges@[j].1 == y || edges@[j].0 == y && edges@[j].1 == x);
                    assert(edges@[j].0 == x && edges@[j].1 == y || edges@[j].0 == y && edges@[j].1 == x);
                } else {
                    assert(edges@[k as int] == (a, b));
                }
            }
            assert forall|x: int, y: usize| 0 <= x < n && before[x]@.contains(y) implies #[trigger] raw@[x]@.contains(y) by {
                let m = choose|m: int| 0 <= m < before[x]@.len() && before[x]@[m] == y;
                assert(raw@[x]@[m] == y);
            }
        }
        k += 1;
    }
    let mut partners: Vec<Vec<usize>> = Vec::new();
    let mut a: usize = 0;
    while a < n
        invariant
            a <= n,
            partners.len() == a,
            forall|x: int| 0 <= x < a ==> crate::ordering::lists_distinct_indices((#[trigger] partners@[x])@, raw@[x]@),
        decreases n - a,
    {
        let list = crate::ordering::copy_indices(&raw[a]);
        partners.push(unique_indices(list));
        a += 1;
    }
    proof {
        assert forall|x: int, y: usize| 0 <= x < partners.len() && #[trigger] partners@[x]@.contains(y) implies partner_given(edges@, edges@.len() as int, x, y as int) by {
            assert(crate::ordering::lists_distinct_indices(partners@[x]@, raw@[x]@));
            assert(raw@[x]@.contains(y));
        }
        assert forall|j: int| 0 <= j < edges@.len() implies {
            let (low, high) = if (#[trigger] edges@[j]).0 <= edges@[j].1 {
                (edges@[j].0, edges@[j].1)
            } else {
                (edges@[j].1, edges@[j].0)
            };
            partners@[low as int]@.contains(high)
        } by {
            let (low, high) = if edges@[j].0 <= edges@[j].1 { (edges@[j].0, edges@[j].1) } else { (edges@[j].1, edges@[j].0) };
            assert(crate::ordering::lists_distinct_indices(partners@[low as int]@, raw@[low as int]@));
            assert(raw@[low as int]@.contains(high));
        }
        assert forall|x: int| 0 <= x < n implies ascending_indices((#[trigger] partners@[x])@) by {
            assert(crate::ordering::lists_distinct_indices(partners@[x]@, raw@[x]@));
        }
    }
    partners
}

#[verifier::loop_isolation(false)]
fn flatten_relations(
    all: &Vec<Entity>,
    partners: &Vec<Vec<usize>>,
    Ghost(entities): Ghost<Seq<Entity>>,
    relations: &Vec<[Entity; 2]>,
    edges: &Vec<(usize, usize)>,
) -> (list: Vec<[Entity; 2]>)
    requires
        entity_list(all@, entities, relations@),
        partners.len() == all.len(),
        edges.len() == relations.len(),
        forall|k: int|
            0 <= k < edges.len() ==> (#[trigger] edges@[k]).0 < all.len() && edges@[k].1 < all.len()
                && all@[edges@[k].0 as int] == relations@[k][0] && all@[edges@[k].1 as int]
                == relations@[k][1],
        partner_listed(partners@, edges@, edges@.len() as int),
        forall|a: int| 0 <= a < all.len() ==> ascending_indices((#[trigger] partners@[a])@),
    ensures
        relation_list(list@, relations@),
{
    let mut list: Vec<[Entity; 2]> = Vec::new();
    let mut a: usize = 0;
    while a < all.len()
        invariant
            a <= all.len(),
            forall|i: int, j: int| 0 <= i < j < list.len() ==> relation_before(list@[i], list@[j]),
            forall|i: int| 0 <= i < list.len() ==> relation_given(relations@, #[trigger] list@[i]),
            forall|i: int| 0 <= i < list.len() && a < all.len() ==> (#[trigger] list@[i])[0].rank() < all@[a as int].rank(),
            forall|x: int, m: int|
                0 <= x < a && 0 <= m < partners@[x]@.len() ==> list@.contains([all@[x], all@[#[trigger] partners@[x]@[m] as int]]),
        decreases all.len() - a,
    {
        let ghost outer = list@;
        let mut m: usize = 0;
        while m < partners[a].len()
            invariant
                a < all.len(),
                m <= partners@[a as int]@.len(),
                forall|i: int, j: int| 0 <= i < j < list.len() ==> relation_before(list@[i], list@[j]),
                forall|i: int| 0 <= i < list.len() ==> relation_given(relations@, #[trigger] list@[i]),
                forall|i: int|
                    0 <= i < list.len() ==> (#[trigger] list@[i])[0].rank() < all@[a as int].rank() || (list@[i][0]
                        == all@[a as int] && (m < partners@[a as int]@.len() ==> list@[i][1].rank() < all@[partners@[a as int]@[m as int] as int].rank())),
                forall|x: int, q: int|
                    0 <= x < all.len() && 0 <= q < partners@[x]@.len() && (x < a || (x == a && q < m)) ==> list@.contains(
                        [all@[x], all@[#[trigger] partners@[x]@[q] as int]],
                    ),
            decreases partners@[a as int]@.len() - m,
        {
            let b: usize = partners[a][m];
            proof {
                assert(partners@[a as int]@.contains(b));
                assert(partner_given(edges@, edges@.len() as int, a as int, b as int));
                let j = choose|j: int| 0 <= j < edges@.len() && ((#[trigger] edges@[j]).0 == a && edges@[j].1 == b || edges@[j].0 == b && edges@[j].1 == a);
                assert(b < all.len());
                assert(a <= b);
                if a < b {
                    assert(all@[a as int].rank() < all@[b as int].rank());
                }
            }
            let ghost before = list@;
            let pair: [Entity; 2] = [all[a], all[b]];
            list.push(pair);
            proof {
                let j = choose|j: int| 0 <= j < edges@.len() && ((#[trigger] edges@[j]).0 == a && edges@[j].1 == b || edges@[j].0 == b && edges@[j].1 == a);
                if edges@[j].0 == a && edges@[j].1 == b {
                    assert(relations@[j] =~= pair);
                    assert(normalized(relations@[j]) == pair);
                } else {
                    assert([relations@[j][1], relations@[j][0]] =~= pair);
                    if relations@[j][0].rank() <= relations@[j][1].rank() {
                        rank_injective(relations@[j][0], relations@[j][1]);
                        assert(relations@[j] =~= pair);
                    }
                    assert(normalized(relations@[j]) =~= pair);
                }
                assert(relation_given(relations@, pair));
                assert(list@[list.len() - 1] == pair);
                assert forall|x: [Entity; 2]| before.contains(x) implies #[trigger] list@.contains(x) by {
                    let q = choose|q: int| 0 <= q < before.len() && before[q] == x;
                    assert(list@[q] == x);
                }
                assert forall|i: int, q: int| 0 <= i < q < list.len() implies relation_before(list@[i], list@[q]) by {
                    if q == before.len() {
                        assert(list@[i] == before[i]);
                    } else {
                        assert(relation_before(before[i], before[q]));
                    }
                }
                assert forall|i: int| 0 <= i < list.len() implies relation_given(relations@, #[trigger] list@[i]) by {
                    if i < before.len() {
                        assert(list@[i] == before[i]);
                    }
                }
                assert forall|i: int| 0 <= i < list.len() implies (#[trigger] list@[i])[0].rank() < all@[a as int].rank() || (list@[i][0]
                        == all@[a as int] && (m + 1 < partners@[a as int]@.len() ==> list@[i][1].rank() < all@[partners@[a as int]@[m + 1] as int].rank())) by {
                    if m + 1 < partners@[a as int]@.len() {
                        let next = partners@[a as int]@[m + 1];
                        assert(partners@[a as int]@.contains(next));
                        assert(partner_given(edges@, edges@.len() as int, a as int, next as int));
                        let j2 = choose|j: int| 0 <= j < edges@.len() && ((#[trigger] edges@[j]).0 == a && edges@[j].1 == next || edges@[j].0 == next && edges@[j].1 == a);
                        assert(b < next);
                        assert(all@[b as int].rank() < all@[next as int].rank());
                    }
                    if i < before.len() {
                        assert(list@[i] == before[i]);
                    }
                }
            }
            m += 1;
        }
        proof {
            assert forall|i: int| 0 <= i < list.len() && a + 1 < all.len() implies (#[trigger] list@[i])[0].rank() < all@[a + 1].rank() by {
                assert(all@[a as int].rank() < all@[a + 1].rank());
            }
        }
        a += 1;
    }
    proof {
        assert forall|k: int| 0 <= k < relations@.len() implies list@.contains(normalized(#[trigger] relations@[k])) by {
            let (low, high) = if edges@[k].0 <= edges@[k].1 { (edges@[k].0, edges@[k].1) } else { (edges@[k].1, edges@[k].0) };
            assert(partners@[low as int]@.contains(high));
            let m = choose|m: int| 0 <= m < partners@[low as int]@.len() && partners@[low as int]@[m] == high;
            assert(list@.contains([all@[low as int], all@[partners@[low as int]@[m] as int]]));
            if edges@[k].0 < edges@[k].1 {
                assert(all@[edges@[k].0 as int].rank() < all@[edges@[k].1 as int].rank());
            } else if edges@[k].1 < edges@[k].0 {
                assert(all@[edges@[k].1 as int].rank() < all@[edges@[k].0 as int].rank());
            }
            assert(normalized(relations@[k]) =~= [all@[low as int], all@[high as int]]);
        }
    }
    list
}

#[verifier::loop_isolation(false)]
fn family_members(all: &Vec<Entity>, group: &Vec<usize>) -> (component: Component)
    requires
        forall|m: int| 0 <= m < group.len() ==> #[trigger] group@[m] < all.len(),
    ensures
        component_of(component, all@, group@),
{
    let mut component = Component { vertices: Vec::new(), axes: Vec::new(), planes: Vec::new() };
    let mut m: usize = 0;
    while m < group.len()
        invariant
            m <= group.len(),
            component_of(component, all@, group@.take(m as int)),
        decreases group.len() - m,
    {
        proof {
            assert(group@.take(m + 1).drop_last() =~= group@.take(m as int));
            assert(group@.take(m + 1).last() == group@[m as int]);
        }
        match all[group[m]] {
            Entity::Vertex(i) => {
                component.vertices.push(i);
            },
            Entity::Axis(i) => {
                component.axes.push(i);
            },
            Entity::Plane(i) => {
                component.planes.push(i);
            },
        }
        m += 1;
    }
    assert(group@.take(m as int) =~= group@);
    component
}

impl Graph {
    /// Builds the graph of given entities and relations.
    #[verifier::loop_isolation(false)]
    pub fn build(entities: Vec<Entity>, relations: Vec<[Entity; 2]>) -> (graph: Graph)
        ensures
            builds(graph, entities@, relations@),
    {
        let (keys, all) = list_entities(&entities, &relations);
        let edges = dense_edges(&keys, &all, &entities, &relations);
        let groups = connected_groups(all.len(), &edges);
        proof {
            let rel = pair_relation(edges@);
            let wanted = related(all@, relations@);
            assert forall|x: int, y: int| rel(x, y) implies #[trigger] wanted(x, y) by {
                let k = choose|k: int| 0 <= k < edges@.len() && #[trigger] edges@[k] == (x as usize, y as usize) && edges@[k].0 == x && edges@[k].1 == y;
                assert(relations@[k][0] == all@[x] && relations@[k][1] == all@[y]);
            }
            let n = all.len() as int;
            assert forall|x: int, y: int| 0 <= x < n && 0 <= y < n && #[trigger] touch(rel, x, y) implies crate::connectivity::connected(n, wanted, x, y) by {
                assert(rel(x, y) ==> wanted(x, y));
                assert(rel(y, x) ==> wanted(y, x));
                connected_step(n, wanted, x, y);
            }
            assert forall|x: int, y: int| 0 <= x < n && 0 <= y < n && #[trigger] touch(wanted, x, y) implies crate::connectivity::connected(n, rel, x, y) by {
                let (p, q) = if wanted(x, y) { (x, y) } else { (y, x) };
                let k = choose|k: int| 0 <= k < relations@.len() && (#[trigger] relations@[k])[0] == all@[p] && relations@[k][1] == all@[q];
                assert(edges@[k].0 < n);
                position_unique(all@, entities@, relations@, edges@[k].0 as int, p);
                position_unique(all@, entities@, relations@, edges@[k].1 as int, q);
                assert(edges@[k] == (p as usize, q as usize));
                assert(rel(p, q));
                connected_step(n, rel, x, y);
            }
            crate::connectivity::components_transfer(groups@, n, rel, wanted);
        }
        let partners = list_partners(all.len(), &edges);
        let list = flatten_relations(&all, &partners, Ghost(entities@), &relations, &edges);
        let mut components: Vec<Component> = Vec::new();
        let mut g: usize = 0;
        while g < groups.len()
            invariant
                g <= groups.len(),
                components.len() == g,
                forall|h: int| 0 <= h < g ==> component_of(#[trigger] components@[h], all@, groups@[h]@),
            decreases groups.len() - g,
        {
            proof {
                assert forall|m: int| 0 <= m < groups@[g as int]@.len() implies #[trigger] groups@[g as int]@[m] < all.len() by {}
            }
            components.push(family_members(&all, &groups[g]));
            g += 1;
        }
        let graph = Graph { relations: list, components };
        assert(graph_of(graph, entities@, relations@, all@, groups@));
        graph
    }

    /// The graph of a frame: axes and planes depend on the vertices they are
    /// incident with, planes of one accepted family on one another.
    #[verifier::loop_isolation(false)]
    pub fn from_frame(frame: &frame::Report) -> (graph: Graph)
        ensures
            exists|entities: Seq<Entity>, relations: Seq<[Entity; 2]>| #[trigger]
                builds(graph, entities, relations) && frame_entities(entities, *frame)
                    && frame_relations(relations, *frame),
    {
        let mut entities: Vec<Entity> = Vec::new();
        let mut i: usize = 0;
        while i < frame.node_ids.len()
            invariant
                i <= frame.node_ids.len(),
                entities.len() == i,
                forall|k: int| 0 <= k < i ==> #[trigger] entities@[k] == Entity::Vertex(k as usize),
            decreases frame.node_ids.len() - i,
        {
            entities.push(Entity::Vertex(i));
            i += 1;
        }
        let ghost n = frame.node_ids@.len() as int;
        let mut a: usize = 0;
        while a < frame.axes.len()
            invariant
                a <= frame.axes.len(),
                entities.len() == n + a,
                forall|k: int| 0 <= k < n ==> #[trigger] entities@[k] == Entity::Vertex(k as usize),
                forall|k: int| n <= k < n + a ==> #[trigger] entities@[k] == Entity::Axis((k - n) as usize),
            decreases frame.axes.len() - a,
        {
            entities.push(Entity::Axis(a));
            a += 1;
        }
        let ghost m = n + frame.axes@.len();
        let mut p: usize = 0;
        while p < frame.surfaces.len()
            invariant
                p <= frame.surfaces.len(),
                entities.len() == m + p,
                forall|k: int| 0 <= k < n ==> #[trigger] entities@[k] == Entity::Vertex(k as usize),
                forall|k: int| n <= k < m ==> #[trigger] entities@[k] == Entity::Axis((k - n) as usize),
                forall|k: int| m <= k < m + p ==> #[trigger] entities@[k] == Entity::Plane((k - m) as usize),
            decreases frame.surfaces.len() - p,
        {
            entities.push(Entity::Plane(p));
            p += 1;
        }
        proof {
            assert forall|entity: Entity| #[trigger] entities@.contains(entity) <==> frame_entity(*frame, entity) by {
                match entity {
                    Entity::Vertex(k) => {
                        if k < n {
                            assert(entities@[k as int] == entity);
                        }
                    },
                    Entity::Axis(k) => {
                        if k < frame.axes@.len() {
                            assert(entities@[n + k] == entity);
                        }
                    },
                    Entity::Plane(k) => {
                        if k < frame.surfaces@.len() {
                            assert(entities@[m + k] == entity);
                        }
                    },
                }
            }
        }
        let relations = relations_of_frame(frame);
        let ghost given = entities@;
        let ghost ties = relations@;
        let graph = Graph::build(entities, relations);
        assert(builds(graph, given, ties) && frame_entities(given, *frame) && frame_relations(ties, *frame));
        graph
    }
}

pub open spec fn frame_entity(frame: frame::Report, entity: Entity) -> bool {
    match entity {
        Entity::Vertex(i) => i < frame.node_ids@.len(),
        Entity::Axis(i) => i < frame.axes@.len(),
        Entity::Plane(i) => i < frame.surfaces@.len(),
    }
}

pub open spec fn frame_entities(entities: Seq<Entity>, frame: frame::Report) -> bool {
    forall|entity: Entity| #[trigger] entities.contains(entity) <==> frame_entity(frame, entity)
}

pub open spec fn axis_incidence(frame: frame::Report, a: int, node: usize) -> bool {
    &&& 0 <= a < frame.axes@.len()
    &&& frame.axes@[a].endpoints[0] == node || frame.axes@[a].endpoints[1] == node || exists|k: int|
        0 <= k < frame.axes@[a].anchors@.len() && (#[trigger] frame.axes@[a].anchors@[k]).node == node
}

pub open spec fn family_step(frame: frame::Report, first: usize, second: usize) -> bool {
    exists|f: int, k: int|
        0 <= f < frame.plane_families@.len() && 0 <= k < frame.plane_families@[f]@.len() - 1
            && #[trigger] frame.plane_families@[f]@[k] == first && frame.plane_families@[f]@[k + 1] == second
}

/// A dependency that the frame states.
pub open spec fn frame_tie(frame: frame::Report, pair: [Entity; 2]) -> bool {
    match (pair[0], pair[1]) {
        (Entity::Axis(a), Entity::Vertex(node)) => axis_incidence(frame, a as int, node),
        (Entity::Plane(p), Entity::Vertex(node)) => p < frame.surfaces@.len()
            && frame.surfaces@[p as int].nodes@.contains(node),
        (Entity::Plane(p), Entity::Plane(q)) => family_step(frame, p, q),
        _ => false,
    }
}

pub open spec fn frame_relations(relations: Seq<[Entity; 2]>, frame: frame::Report) -> bool {
    forall|pair: [Entity; 2]| #[trigger] relations.contains(pair) <==> frame_tie(frame, pair)
}

proof fn pushed(before: Seq<[Entity; 2]>, after: Seq<[Entity; 2]>, pair: [Entity; 2])
    requires
        after == before.push(pair),
    ensures
        forall|x: [Entity; 2]| #[trigger] after.contains(x) <==> before.contains(x) || x == pair,
{
    assert forall|x: [Entity; 2]| #[trigger] after.contains(x) <==> before.contains(x) || x == pair by {
        if before.contains(x) {
            let m = choose|m: int| 0 <= m < before.len() && before[m] == x;
            assert(after[m] == x);
        }
        if after.contains(x) {
            let m = choose|m: int| 0 <= m < after.len() && after[m] == x;
            if m < before.len() {
                assert(before[m] == x);
            }
        }
        assert(after[before.len() as int] == pair);
    }
}

spec fn tie_of_axes(frame: frame::Report, done: int, part: int, pair: [Entity; 2]) -> bool {
    match (pair[0], pair[1]) {
        (Entity::Axis(a), Entity::Vertex(node)) => {
            ||| a < done && axis_incidence(frame, a as int, node)
            ||| a == done && part >= 1 && frame.axes@[done].endpoints[0] == node
            ||| a == done && part >= 2 && frame.axes@[done].endpoints[1] == node
            ||| a == done && exists|k: int|
                0 <= k < part - 2 && (#[trigger] frame.axes@[done].anchors@[k]).node == node
        },
        _ => false,
    }
}

spec fn tie_of_surfaces(frame: frame::Report, done: int, part: int, pair: [Entity; 2]) -> bool {
    match (pair[0], pair[1]) {
        (Entity::Plane(p), Entity::Vertex(node)) => {
            ||| p < done && frame.surfaces@[p as int].nodes@.contains(node)
            ||| p == done && frame.surfaces@[done].nodes@.take(part).contains(node)
        },
        _ => false,
    }
}

spec fn tie_of_families(frame: frame::Report, done: int, part: int, pair: [Entity; 2]) -> bool {
    match (pair[0], pair[1]) {
        (Entity::Plane(p), Entity::Plane(q)) => exists|f: int, k: int|
            0 <= f < frame.plane_families@.len() && 0 <= k < frame.plane_families@[f]@.len() - 1 && (f < done || (f == done && k
                < part)) && #[trigger] frame.plane_families@[f]@[k] == p && frame.plane_families@[f]@[k + 1] == q,
        _ => false,
    }
}

#[verifier::loop_isolation(false)]
#[verifier::rlimit(60)]
fn relations_of_frame(frame: &frame::Report) -> (relations: Vec<[Entity; 2]>)
    ensures
        frame_relations(relations@, *frame),
{
    let mut relations: Vec<[Entity; 2]> = Vec::new();
    let mut a: usize = 0;
    while a < frame.axes.len()
        invariant
            a <= frame.axes.len(),
            forall|pair: [Entity; 2]| #[trigger] relations@.contains(pair) <==> tie_of_axes(*frame, a as int, 0, pair),
        decreases frame.axes.len() - a,
    {
        let axis = &frame.axes[a];
        let ghost r0 = relations@;
        relations.push([Entity::Axis(a), Entity::Vertex(axis.endpoints[0])]);
        let ghost r1 = relations@;
        relations.push([Entity::Axis(a), Entity::Vertex(axis.endpoints[1])]);
        proof {
            pushed(r0, r1, [Entity::Axis(a), Entity::Vertex(axis.endpoints[0])]);
            pushed(r1, relations@, [Entity::Axis(a), Entity::Vertex(axis.endpoints[1])]);
            assert forall|pair: [Entity; 2]| #[trigger] relations@.contains(pair) <==> tie_of_axes(*frame, a as int, 2, pair) by {
                assert(r0.contains(pair) <==> tie_of_axes(*frame, a as int, 0, pair));
                assert(r1.contains(pair) <==> r0.contains(pair) || pair == [Entity::Axis(a), Entity::Vertex(axis.endpoints[0])]);
                if pair[0] == Entity::Axis(a) && pair[1] == Entity::Vertex(axis.endpoints[0]) {
                    assert(pair =~= [Entity::Axis(a), Entity::Vertex(axis.endpoints[0])]);
                }
                if pair[0] == Entity::Axis(a) && pair[1] == Entity::Vertex(axis.endpoints[1]) {
                    assert(pair =~= [Entity::Axis(a), Entity::Vertex(axis.endpoints[1])]);
                }
            }
        }
        let mut k: usize = 0;
        while k < axis.anchors.len()
            invariant
                k <= axis.anchors.len(),
                forall|pair: [Entity; 2]| #[trigger] relations@.contains(pair) <==> tie_of_axes(*frame, a as int, k + 2, pair),
            decreases axis.anchors.len() - k,
        {
            let node: usize = axis.anchors[k].node;
            let ghost before = relations@;
            relations.push([Entity::Axis(a), Entity::Vertex(node)]);
            proof {
                pushed(before, relations@, [Entity::Axis(a), Entity::Vertex(node)]);
                assert forall|pair: [Entity; 2]| #[trigger] relations@.contains(pair) <==> tie_of_axes(*frame, a as int, k + 3, pair) by {
                    assert(before.contains(pair) <==> tie_of_axes(*frame, a as int, k + 2, pair));
                    if pair[0] == Entity::Axis(a) && pair[1] == Entity::Vertex(node) {
                        assert(pair =~= [Entity::Axis(a), Entity::Vertex(node)]);
                    }
                    if pair == [Entity::Axis(a), Entity::Vertex(node)] {
                        assert(frame.axes@[a as int].anchors@[k as int].node == node);
                    }
                }
            }
            k += 1;
        }
        proof {
            assert forall|pair: [Entity; 2]| #[trigger] relations@.contains(pair) <==> tie_of_axes(*frame, a + 1, 0, pair) by {
                assert(relations@.contains(pair) <==> tie_of_axes(*frame, a as int, k + 2, pair));
            }
        }
        a += 1;
    }
    let ghost after_axes = relations@;
    proof {
        assert forall|pair: [Entity; 2]| #[trigger] relations@.contains(pair) <==> tie_of_axes(*frame, frame.axes@.len() as int, 0, pair) || tie_of_surfaces(*frame, 0, 0, pair) by {
            assert(relations@.contains(pair) <==> tie_of_axes(*frame, a as int, 0, pair));
            if frame.surfaces@.len() > 0 {
                assert(frame.surfaces@[0].nodes@.take(0) =~= Seq::<usize>::empty());
            }
            assert(frame.surfaces@[0].nodes@.take(0).len() == 0);
        }
    }
    let mut p: usize = 0;
    while p < frame.surfaces.len()
        invariant
            p <= frame.surfaces.len(),
            forall|pair: [Entity; 2]| #[trigger] relations@.contains(pair) <==> tie_of_axes(*frame, frame.axes@.len() as int, 0, pair) || tie_of_surfaces(*frame, p as int, 0, pair),
        decreases frame.surfaces.len() - p,
    {
        let ghost list = frame.surfaces@[p as int].nodes@;
        let mut k: usize = 0;
        while k < frame.surfaces[p].nodes.len()
            invariant
                k <= list.len(),
                forall|pair: [Entity; 2]| #[trigger] relations@.contains(pair) <==> tie_of_axes(*frame, frame.axes@.len() as int, 0, pair) || tie_of_surfaces(*frame, p as int, k as int, pair),
            decreases list.len() - k,
        {
            let node: usize = frame.surfaces[p].nodes[k];
            let ghost before = relations@;
            relations.push([Entity::Plane(p), Entity::Vertex(node)]);
            proof {
                pushed(before, relations@, [Entity::Plane(p), Entity::Vertex(node)]);
                assert forall|x: usize| #[trigger] list.take(k + 1).contains(x) <==> list.take(k as int).contains(x) || x == node by {
                    let short = list.take(k as int);
                    let long = list.take(k + 1);
                    if short.contains(x) {
                        let m = choose|m: int| 0 <= m < short.len() && short[m] == x;
                        assert(long[m] == x);
                    }
                    if long.contains(x) {
                        let m = choose|m: int| 0 <= m < long.len() && long[m] == x;
                        if m < k {
                            assert(short[m] == x);
                        }
                    }
                    assert(long[k as int] == node);
                }
                assert forall|pair: [Entity; 2]| #[trigger] relations@.contains(pair) <==> tie_of_axes(*frame, frame.axes@.len() as int, 0, pair) || tie_of_surfaces(*frame, p as int, k + 1, pair) by {
                    assert(before.contains(pair) <==> tie_of_axes(*frame, frame.axes@.len() as int, 0, pair) || tie_of_surfaces(*frame, p as int, k as int, pair));
                    if pair[0] == Entity::Plane(p) && pair[1] == Entity::Vertex(node) {
                        assert(pair =~= [Entity::Plane(p), Entity::Vertex(node)]);
                    }
                }
            }
            k += 1;
        }
        proof {
            assert(list.take(k as int) =~= list);
            assert forall|pair: [Entity; 2]| #[trigger] relations@.contains(pair) <==> tie_of_axes(*frame, frame.axes@.len() as int, 0, pair) || tie_of_surfaces(*frame, p + 1, 0, pair) by {
                assert(relations@.contains(pair) <==> tie_of_axes(*frame, frame.axes@.len() as int, 0, pair) || tie_of_surfaces(*frame, p as int, k as int, pair));
                assert(frame.surfaces@[p + 1].nodes@.take(0).len() == 0);
            }
        }
        p += 1;
    }
    proof {
        assert forall|pair: [Entity; 2]| #[trigger] relations@.contains(pair) <==> tie_of_axes(*frame, frame.axes@.len() as int, 0, pair) || tie_of_surfaces(*frame, frame.surfaces@.len() as int, 0, pair) || tie_of_families(*frame, 0, 0, pair) by {
            assert(relations@.contains(pair) <==> tie_of_axes(*frame, frame.axes@.len() as int, 0, pair) || tie_of_surfaces(*frame, p as int, 0, pair));
        }
    }
    let mut f: usize = 0;
    while f < frame.plane_families.len()
        invariant
            f <= frame.plane_families.len(),
            forall|pair: [Entity; 2]| #[trigger] relations@.contains(pair) <==> tie_of_axes(*frame, frame.axes@.len() as int, 0, pair) || tie_of_surfaces(*frame, frame.surfaces@.len() as int, 0, pair) || tie_of_families(*frame, f as int, 0, pair),
        decreases frame.plane_families.len() - f,
    {
        let mut k: usize = 1;
        while k < frame.plane_families[f].len()
            invariant
                1 <= k,
                k <= frame.plane_families@[f as int]@.len() || k == 1,
                forall|pair: [Entity; 2]| #[trigger] relations@.contains(pair) <==> tie_of_axes(*frame, frame.axes@.len() as int, 0, pair) || tie_of_surfaces(*frame, frame.surfaces@.len() as int, 0, pair) || tie_of_families(*frame, f as int, k - 1, pair),
            decreases frame.plane_families@[f as int]@.len() - k,
        {
            let first: usize = frame.plane_families[f][k - 1];
            let second: usize = frame.plane_families[f][k];
            let ghost before = relations@;
            relations.push([Entity::Plane(first), Entity::Plane(second)]);
            proof {
                pushed(before, relations@, [Entity::Plane(first), Entity::Plane(second)]);
                assert forall|pair: [Entity; 2]| #[trigger] relations@.contains(pair) <==> tie_of_axes(*frame, frame.axes@.len() as int, 0, pair) || tie_of_surfaces(*frame, frame.surfaces@.len() as int, 0, pair) || tie_of_families(*frame, f as int, k as int, pair) by {
                    assert(before.contains(pair) <==> tie_of_axes(*frame, frame.axes@.len() as int, 0, pair) || tie_of_surfaces(*frame, frame.surfaces@.len() as int, 0, pair) || tie_of_families(*frame, f as int, k - 1, pair));
                    if pair[0] == Entity::Plane(first) && pair[1] == Entity::Plane(second) {
                        assert(pair =~= [Entity::Plane(first), Entity::Plane(second)]);
                    }
                    if pair == [Entity::Plane(first), Entity::Plane(second)] {
                        assert(frame.plane_families@[f as int]@[k - 1] == first);
                        assert(tie_of_families(*frame, f as int, k as int, pair));
                    }
                    if tie_of_families(*frame, f as int, k as int, pair) && !tie_of_families(*frame, f as int, k - 1, pair) {
                        match (pair[0], pair[1]) {
                            (Entity::Plane(x), Entity::Plane(y)) => {
                                let (g, l) = choose|g: int, l: int|
                                    0 <= g < frame.plane_families@.len() && 0 <= l < frame.plane_families@[g]@.len() - 1 && (g < f || (g == f && l
                                        < k)) && #[trigger] frame.plane_families@[g]@[l] == x && frame.plane_families@[g]@[l + 1] == y;
                                if g < f || l < k - 1 {
                                    assert(frame.plane_families@[g]@[l] == x);
                                    assert(tie_of_families(*frame, f as int, k - 1, pair));
                                }
                                assert(g == f && l == k - 1);
                            },
                            _ => {},
                        }
                    }
                    if tie_of_families(*frame, f as int, k - 1, pair) {
                        match (pair[0], pair[1]) {
                            (Entity::Plane(x), Entity::Plane(y)) => {
                                let (g, l) = choose|g: int, l: int|
                                    0 <= g < frame.plane_families@.len() && 0 <= l < frame.plane_families@[g]@.len() - 1 && (g < f || (g == f && l
                                        < k - 1)) && #[trigger] frame.plane_families@[g]@[l] == x && frame.plane_families@[g]@[l + 1] == y;
                                assert(frame.plane_families@[g]@[l] == x);
                                assert(tie_of_families(*frame, f as int, k as int, pair));
                            },
                            _ => {},
                        }
                    }
                }
            }
            k += 1;
        }
        proof {
            assert forall|pair: [Entity; 2]| tie_of_families(*frame, f as int, k - 1, pair) <==> #[trigger] tie_of_families(*frame, f + 1, 0, pair) by {
                match (pair[0], pair[1]) {
                    (Entity::Plane(x), Entity::Plane(y)) => {
                        if tie_of_families(*frame, f as int, k - 1, pair) {
                            let (g, l) = choose|g: int, l: int|
                                0 <= g < frame.plane_families@.len() && 0 <= l < frame.plane_families@[g]@.len() - 1 && (g < f || (g == f && l
                                    < k - 1)) && #[trigger] frame.plane_families@[g]@[l] == x && frame.plane_families@[g]@[l + 1] == y;
                            assert(frame.plane_families@[g]@[l] == x);
                        }
                        if tie_of_families(*frame, f + 1, 0, pair) {
                            let (g, l) = choose|g: int, l: int|
                                0 <= g < frame.plane_families@.len() && 0 <= l < frame.plane_families@[g]@.len() - 1 && (g < f + 1 || (g == f + 1 && l
                                    < 0)) && #[trigger] frame.plane_families@[g]@[l] == x && frame.plane_families@[g]@[l + 1] == y;
                            assert(frame.plane_families@[g]@[l] == x);
                        }
                    },
                    _ => {},
                }
            }
            assert forall|pair: [Entity; 2]| #[trigger] relations@.contains(pair) <==> tie_of_axes(*frame, frame.axes@.len() as int, 0, pair) || tie_of_surfaces(*frame, frame.surfaces@.len() as int, 0, pair) || tie_of_families(*frame, f + 1, 0, pair) by {
                assert(tie_of_families(*frame, f as int, k - 1, pair) <==> tie_of_families(*frame, f + 1, 0, pair));
            }
        }
        f += 1;
    }
    proof {
        assert forall|pair: [Entity; 2]| #[trigger] relations@.contains(pair) <==> frame_tie(*frame, pair) by {
            assert(relations@.contains(pair) <==> tie_of_axes(*frame, frame.axes@.len() as int, 0, pair) || tie_of_surfaces(*frame, frame.surfaces@.len() as int, 0, pair) || tie_of_families(*frame, f as int, 0, pair));
            match (pair[0], pair[1]) {
                (Entity::Plane(x), Entity::Plane(y)) => {
                    if family_step(*frame, x, y) {
                        let (g, l) = choose|g: int, l: int|
                            0 <= g < frame.plane_families@.len() && 0 <= l < frame.plane_families@[g]@.len() - 1
                                && #[trigger] frame.plane_families@[g]@[l] == x && frame.plane_families@[g]@[l + 1] == y;
                        assert(frame.plane_families@[g]@[l] == x);
                        assert(tie_of_families(*frame, f as int, 0, pair));
                    }
                    if tie_of_families(*frame, f as int, 0, pair) {
                        let (g, l) = choose|g: int, l: int|
                            0 <= g < frame.plane_families@.len() && 0 <= l < frame.plane_families@[g]@.len() - 1 && (g < f || (g == f && l
                                < 0)) && #[trigger] frame.plane_families@[g]@[l] == x && frame.plane_families@[g]@[l + 1] == y;
                        assert(frame.plane_families@[g]@[l] == x);
                    }
                },
                _ => {},
            }
        }
    }
    relations
}

proof fn entities_determined(a: Seq<Entity>, b: Seq<Entity>)
    requires
        forall|i: int, j: int| 0 <= i < j < a.len() ==> a[i].rank() < a[j].rank(),
        forall|i: int, j: int| 0 <= i < j < b.len() ==> b[i].rank() < b[j].rank(),
        forall|x: Entity| a.contains(x) <==> b.contains(x),
    ensures
        a == b,
    decreases a.len(),
{
    if a.len() == 0 {
        if b.len() > 0 {
            assert(b.contains(b[0]));
        }
        assert(a =~= b);
    } else {
        assert(a.contains(a.last()));
        assert(b.len() > 0);
        assert(b.contains(b.last()));
        let i = choose|i: int| 0 <= i < a.len() && a[i] == b.last();
        let j = choose|j: int| 0 <= j < b.len() && b[j] == a.last();
        rank_injective(a.last(), b.last());
        assert(a.last() == b.last());
        let c = a.drop_last();
        let d = b.drop_last();
        assert forall|x: Entity| c.contains(x) <==> d.contains(x) by {
            if c.contains(x) {
                let k = choose|k: int| 0 <= k < c.len() && c[k] == x;
                assert(a[k] == x);
                assert(b.contains(x));
                let l = choose|l: int| 0 <= l < b.len() && b[l] == x;
                assert(d[l] == x);
            }
            if d.contains(x) {
                let k = choose|k: int| 0 <= k < d.len() && d[k] == x;
                assert(b[k] == x);
                assert(a.contains(x));
                let l = choose|l: int| 0 <= l < a.len() && a[l] == x;
                assert(c[l] == x);
            }
        }
        entities_determined(c, d);
        assert(a =~= c.push(a.last()));
        assert(b =~= d.push(b.last()));
    }
}

proof fn relation_order_total(a: [Entity; 2], b: [Entity; 2])
    ensures
        a == b || relation_before(a, b) || relation_before(b, a),
        !(relation_before(a, b) && relation_before(b, a)),
        a == b ==> !relation_before(a, b),
{
    rank_injective(a[0], b[0]);
    rank_injective(a[1], b[1]);
    if a[0] == b[0] && a[1] == b[1] {
        assert(a =~= b);
    }
}

proof fn relations_determined(a: Seq<[Entity; 2]>, b: Seq<[Entity; 2]>)
    requires
        forall|i: int, j: int| 0 <= i < j < a.len() ==> relation_before(a[i], a[j]),
        forall|i: int, j: int| 0 <= i < j < b.len() ==> relation_before(b[i], b[j]),
        forall|x: [Entity; 2]| a.contains(x) <==> b.contains(x),
    ensures
        a == b,
    decreases a.len(),
{
    if a.len() == 0 {
        if b.len() > 0 {
            assert(b.contains(b[0]));
        }
        assert(a =~= b);
    } else {
        assert(a.contains(a.last()));
        assert(b.len() > 0);
        assert(b.contains(b.last()));
        let i = choose|i: int| 0 <= i < a.len() && a[i] == b.last();
        let j = choose|j: int| 0 <= j < b.len() && b[j] == a.last();
        relation_order_total(a.last(), b.last());
        assert(a.last() == b.last()) by {
            if i < a.len() - 1 {
                assert(relation_before(a[i], a[a.len() - 1]));
            }
            if j < b.len() - 1 {
                assert(relation_before(b[j], b[b.len() - 1]));
            }
        }
        let c = a.drop_last();
        let d = b.drop_last();
        assert forall|x: [Entity; 2]| c.contains(x) <==> d.contains(x) by {
            if c.contains(x) {
                let k = choose|k: int| 0 <= k < c.len() && c[k] == x;
                assert(a[k] == x);
                assert(relation_before(a[k], a[a.len() - 1]));
                relation_order_total(x, a.last());
                assert(b.contains(x));
                let l = choose|l: int| 0 <= l < b.len() && b[l] == x;
                assert(l < b.len() - 1);
                assert(d[l] == x);
            }
            if d.contains(x) {
                let k = choose|k: int| 0 <= k < d.len() && d[k] == x;
                assert(b[k] == x);
                assert(relation_before(b[k], b[b.len() - 1]));
                relation_order_total(x, b.last());
                assert(a.contains(x));
                let l = choose|l: int| 0 <= l < a.len() && a[l] == x;
                assert(l < a.len() - 1);
                assert(c[l] == x);
            }
        }
        relations_determined(c, d);
        assert(a =~= c.push(a.last()));
        assert(b =~= d.push(b.last()));
    }
}

proof fn mention_carries(
    first: Seq<[Entity; 2]>,
    second: Seq<[Entity; 2]>,
    entities: Seq<Entity>,
    others: Seq<Entity>,
    entity: Entity,
)
    requires
        mentioned(entities, first, entity),
        forall|x: Entity| entities.contains(x) ==> #[trigger] others.contains(x),
        forall|pair: [Entity; 2]| relation_given(first, pair) ==> #[trigger] relation_given(second, pair),
    ensures
        mentioned(others, second, entity),
{
    if entities.contains(entity) {
        assert(others.contains(entity));
    } else {
        let k = choose|k: int| 0 <= k < first.len() && ((#[trigger] first[k])[0] == entity || first[k][1] == entity);
        let pair = normalized(first[k]);
        assert(relation_given(first, pair));
        assert(relation_given(second, pair));
        let l = choose|l: int| 0 <= l < second.len() && normalized(#[trigger] second[l]) == pair;
        assert(pair[0] == entity || pair[1] == entity);
        assert(second[l][0] == entity || second[l][1] == entity);
    }
}

proof fn relation_carries(
    all: Seq<Entity>,
    first: Seq<[Entity; 2]>,
    second: Seq<[Entity; 2]>,
    x: int,
    y: int,
)
    requires
        0 <= x < all.len(),
        0 <= y < all.len(),
        touch(related(all, first), x, y),
        forall|pair: [Entity; 2]| relation_given(first, pair) ==> #[trigger] relation_given(second, pair),
    ensures
        touch(related(all, second), x, y),
{
    let (p, q) = if related(all, first)(x, y) { (x, y) } else { (y, x) };
    let k = choose|k: int| 0 <= k < first.len() && (#[trigger] first[k])[0] == all[p] && first[k][1] == all[q];
    let pair = normalized(first[k]);
    assert(relation_given(first, pair));
    assert(relation_given(second, pair));
    let l = choose|l: int| 0 <= l < second.len() && normalized(#[trigger] second[l]) == pair;
    if second[l][0] == all[p] && second[l][1] == all[q] {
        assert(related(all, second)(p, q));
    } else {
        assert(second[l][0] == all[q] && second[l][1] == all[p]) by {
            assert(pair[0] == all[p] && pair[1] == all[q] || pair[0] == all[q] && pair[1] == all[p]);
        }
        assert(related(all, second)(q, p));
    }
}

/// The graph depends only on which entities and relations are given, not on
/// their order, their repetition or the direction of a relation.
pub proof fn graph_is_order_independent(
    first: Graph,
    entities: Seq<Entity>,
    relations: Seq<[Entity; 2]>,
    second: Graph,
    other_entities: Seq<Entity>,
    other_relations: Seq<[Entity; 2]>,
)
    requires
        builds(first, entities, relations),
        builds(second, other_entities, other_relations),
        forall|x: Entity| #[trigger] entities.contains(x) <==> #[trigger] other_entities.contains(x),
        forall|pair: [Entity; 2]| #[trigger]
            relation_given(relations, pair) <==> #[trigger] relation_given(other_relations, pair),
    ensures
        first.relations@ == second.relations@,
        first.components@.len() == second.components@.len(),
        forall|g: int|
            0 <= g < first.components@.len() ==> (#[trigger] first.components@[g]).vertices@
                == second.components@[g].vertices@ && first.components@[g].axes@
                == second.components@[g].axes@ && first.components@[g].planes@
                == second.components@[g].planes@,
{
    let (all, groups) = choose|all: Seq<Entity>, groups: Seq<Vec<usize>>| #[trigger]
        graph_of(first, entities, relations, all, groups);
    let (all2, groups2) = choose|all: Seq<Entity>, groups: Seq<Vec<usize>>| #[trigger]
        graph_of(second, other_entities, other_relations, all, groups);
    assert forall|pair: [Entity; 2]| first.relations@.contains(pair) <==> second.relations@.contains(pair) by {
        if first.relations@.contains(pair) {
            let i = choose|i: int| 0 <= i < first.relations@.len() && first.relations@[i] == pair;
            assert(relation_given(relations, first.relations@[i]));
            assert(relation_given(other_relations, pair));
            let k = choose|k: int| 0 <= k < other_relations.len() && normalized(#[trigger] other_relations[k]) == pair;
            assert(second.relations@.contains(normalized(other_relations[k])));
        }
        if second.relations@.contains(pair) {
            let i = choose|i: int| 0 <= i < second.relations@.len() && second.relations@[i] == pair;
            assert(relation_given(other_relations, second.relations@[i]));
            assert(relation_given(relations, pair));
            let k = choose|k: int| 0 <= k < relations.len() && normalized(#[trigger] relations[k]) == pair;
            assert(first.relations@.contains(normalized(relations[k])));
        }
    }
    relations_determined(first.relations@, second.relations@);
    assert forall|x: Entity| all.contains(x) <==> all2.contains(x) by {
        if all.contains(x) {
            mention_carries(relations, other_relations, entities, other_entities, x);
        }
        if all2.contains(x) {
            mention_carries(other_relations, relations, other_entities, entities, x);
        }
    }
    entities_determined(all, all2);
    let n = all.len() as int;
    let rel = related(all, relations);
    let rel2 = related(all, other_relations);
    assert forall|x: int, y: int| 0 <= x < n && 0 <= y < n && #[trigger] touch(rel, x, y) implies crate::connectivity::connected(n, rel2, x, y) by {
        relation_carries(all, relations, other_relations, x, y);
        connected_step(n, rel2, x, y);
    }
    assert forall|x: int, y: int| 0 <= x < n && 0 <= y < n && #[trigger] touch(rel2, x, y) implies crate::connectivity::connected(n, rel, x, y) by {
        relation_carries(all, other_relations, relations, x, y);
        connected_step(n, rel, x, y);
    }
    crate::connectivity::components_transfer(groups, n, rel, rel2);
    components_unique(groups, groups2, n, rel2);
    assert forall|g: int| 0 <= g < first.components@.len() implies (#[trigger] first.components@[g]).vertices@
            == second.components@[g].vertices@ && first.components@[g].axes@
            == second.components@[g].axes@ && first.components@[g].planes@
            == second.components@[g].planes@ by {
        assert(component_of(second.components@[g], all2, groups2[g]@));
        assert(groups[g]@ == groups2[g]@);
    }
}

/// A relation is listed exactly when it was given, in one sense or the other.
pub proof fn given_relations_are_listed(list: Seq<[Entity; 2]>, relations: Seq<[Entity; 2]>, k: int)
    requires
        relation_list(list, relations),
        0 <= k < relations.len(),
    ensures
        exists|i: int|
            0 <= i < list.len() && (((#[trigger] list[i])[0] == relations[k][0] && list[i][1] == relations[k][1]) || (list[i][0]
                == relations[k][1] && list[i][1] == relations[k][0])),
{
    let pair = normalized(relations[k]);
    assert(list.contains(pair));
    let i = choose|i: int| 0 <= i < list.len() && list[i] == pair;
    assert(list[i][0] == pair[0]);
}

/// In every listed relation the lesser entity comes first.
pub proof fn relations_have_one_order(list: Seq<[Entity; 2]>, relations: Seq<[Entity; 2]>, i: int)
    requires
        relation_list(list, relations),
        0 <= i < list.len(),
    ensures
        list[i][0].rank() <= list[i][1].rank(),
        exists|k: int|
            0 <= k < relations.len() && (((#[trigger] relations[k])[0] == list[i][0] && relations[k][1] == list[i][1]) || (relations[k][0]
                == list[i][1] && relations[k][1] == list[i][0])),
{
    assert(relation_given(relations, list[i]));
    let k = choose|k: int| 0 <= k < relations.len() && normalized(#[trigger] relations[k]) == list[i];
    assert(normalized(relations[k]) == list[i]);
}

/// Vertices come before axes, and axes before planes; in a family the smaller number is first.
pub proof fn families_are_in_order(i: usize, j: usize)
    ensures
        Entity::Vertex(i).rank() < Entity::Axis(j).rank(),
        Entity::Axis(i).rank() < Entity::Plane(j).rank(),
        Entity::Vertex(i).rank() < Entity::Vertex(j).rank() <==> i < j,
        Entity::Axis(i).rank() < Entity::Axis(j).rank() <==> i < j,
        Entity::Plane(i).rank() < Entity::Plane(j).rank() <==> i < j,
{
}

/// The entity is one of the group.
pub open spec fn group_has(all: Seq<Entity>, group: Seq<usize>, entity: Entity) -> bool {
    exists|k: int| 0 <= k < group.len() && all[#[trigger] group[k] as int] == entity
}

proof fn group_grows(all: Seq<Entity>, group: Seq<usize>, entity: Entity)
    requires
        group.len() > 0,
    ensures
        group_has(all, group, entity) <==> all[group.last() as int] == entity || group_has(all, group.drop_last(), entity),
{
    let rest = group.drop_last();
    if group_has(all, group, entity) {
        let k = choose|k: int| 0 <= k < group.len() && all[#[trigger] group[k] as int] == entity;
        if k < rest.len() {
            assert(all[rest[k] as int] == entity);
        }
    }
    if group_has(all, rest, entity) {
        let k = choose|k: int| 0 <= k < rest.len() && all[#[trigger] rest[k] as int] == entity;
        assert(all[group[k] as int] == entity);
    }
    assert(group[group.len() - 1] == group.last());
}

/// A component has exactly the vertices, the axes and the planes of its group.
pub proof fn components_hold_their_group(all: Seq<Entity>, group: Seq<usize>, i: usize)
    ensures
        vertices_of(all, group).contains(i) <==> group_has(all, group, Entity::Vertex(i)),
        axes_of(all, group).contains(i) <==> group_has(all, group, Entity::Axis(i)),
        planes_of(all, group).contains(i) <==> group_has(all, group, Entity::Plane(i)),
    decreases group.len(),
{
    if group.len() > 0 {
        let rest = group.drop_last();
        components_hold_their_group(all, rest, i);
        group_grows(all, group, Entity::Vertex(i));
        group_grows(all, group, Entity::Axis(i));
        group_grows(all, group, Entity::Plane(i));
        match all[group.last() as int] {
            Entity::Vertex(j) => crate::ordering::pushed_contains(vertices_of(all, rest), j, i),
            Entity::Axis(j) => crate::ordering::pushed_contains(axes_of(all, rest), j, i),
            Entity::Plane(j) => crate::ordering::pushed_contains(planes_of(all, rest), j, i),
        }
    }
}

/// Every node, axis and surface of a frame is an entity of its graph, and nothing else is.
pub proof fn frames_bring_their_entities(entities: Seq<Entity>, frame: frame::Report, i: usize)
    requires
        frame_entities(entities, frame),
    ensures
        entities.contains(Entity::Vertex(i)) <==> i < frame.node_ids@.len(),
        entities.contains(Entity::Axis(i)) <==> i < frame.axes@.len(),
        entities.contains(Entity::Plane(i)) <==> i < frame.surfaces@.len(),
{
    assert(entities.contains(Entity::Vertex(i)) == frame_entity(frame, Entity::Vertex(i)));
    assert(entities.contains(Entity::Axis(i)) == frame_entity(frame, Entity::Axis(i)));
    assert(entities.contains(Entity::Plane(i)) == frame_entity(frame, Entity::Plane(i)));
}

/// An axis is tied to both its ends and to the nodes of its anchors.
pub proof fn axes_are_tied_to_their_nodes(relations: Seq<[Entity; 2]>, frame: frame::Report, a: usize, k: int)
    requires
        frame_relations(relations, frame),
        a < frame.axes@.len(),
        0 <= k < frame.axes@[a as int].anchors@.len(),
    ensures
        relations.contains([Entity::Axis(a), Entity::Vertex(frame.axes@[a as int].endpoints[0])]),
        relations.contains([Entity::Axis(a), Entity::Vertex(frame.axes@[a as int].endpoints[1])]),
        relations.contains([Entity::Axis(a), Entity::Vertex(frame.axes@[a as int].anchors@[k].node)]),
{
    let axis = frame.axes@[a as int];
    assert(axis_incidence(frame, a as int, axis.endpoints[0]));
    assert(axis_incidence(frame, a as int, axis.endpoints[1]));
    assert(axis_incidence(frame, a as int, axis.anchors@[k].node));
    assert(frame_tie(frame, [Entity::Axis(a), Entity::Vertex(axis.endpoints[0])]));
    assert(frame_tie(frame, [Entity::Axis(a), Entity::Vertex(axis.endpoints[1])]));
    assert(frame_tie(frame, [Entity::Axis(a), Entity::Vertex(axis.anchors@[k].node)]));
}

/// A surface is tied exactly to its nodes, and to the surfaces next to it in a family.
pub proof fn surfaces_are_tied_to_their_nodes(relations: Seq<[Entity; 2]>, frame: frame::Report, p: usize, node: usize, f: int, k: int)
    requires
        frame_relations(relations, frame),
        p < frame.surfaces@.len(),
        0 <= f < frame.plane_families@.len(),
        0 <= k < frame.plane_families@[f]@.len() - 1,
    ensures
        relations.contains([Entity::Plane(p), Entity::Vertex(node)]) <==> frame.surfaces@[p as int].nodes@.contains(node),
        relations.contains([Entity::Plane(frame.plane_families@[f]@[k]), Entity::Plane(frame.plane_families@[f]@[k + 1])]),
        !relations.contains([Entity::Vertex(node), Entity::Vertex(p)]),
        !relations.contains([Entity::Axis(node), Entity::Axis(p)]),
        !relations.contains([Entity::Axis(node), Entity::Plane(p)]),
{
    let list = frame.plane_families@[f]@;
    assert(relations.contains([Entity::Plane(p), Entity::Vertex(node)]) == frame_tie(frame, [Entity::Plane(p), Entity::Vertex(node)]));
    assert(family_step(frame, list[k], list[k + 1]));
    assert(frame_tie(frame, [Entity::Plane(list[k]), Entity::Plane(list[k + 1])]));
    assert(!frame_tie(frame, [Entity::Vertex(node), Entity::Vertex(p)]));
    assert(!frame_tie(frame, [Entity::Axis(node), Entity::Axis(p)]));
    assert(!frame_tie(frame, [Entity::Axis(node), Entity::Plane(p)]));
}

/// Ordering a relation keeps both entities.
pub proof fn ordering_a_relation_keeps_it(pair: [Entity; 2])
    ensures
        normalized(pair)[0].rank() <= normalized(pair)[1].rank(),
        (normalized(pair)[0] == pair[0] && normalized(pair)[1] == pair[1]) || (normalized(pair)[0] == pair[1] && normalized(pair)[1]
            == pair[0]),
{
}

} // verus!
