//! Closed material regions of a triangulated surface. Beam edges subdivide
//! regions; they are no holes.
use vstd::prelude::*;
use crate::connectivity::{components_of, connected, connected_closed, connected_groups, connected_reflexive, connected_step, connected_transitive, pair_relation, touch};
use crate::ordering::{ascending_indices, sorted_indices, stable_order};
use crate::scalar::Scalar;

verus! {

/// Two faces on either side of an edge. `toggle` says that the edge is part of
/// the material boundary, `barrier` that it parts refinement domains.
#[derive(Debug, Clone, Copy)]
pub struct FaceLink {
    pub a: usize,
    pub b: usize,
    pub toggle: bool,
    pub barrier: bool,
}

pub open spec fn links_known(links: Seq<FaceLink>, faces: int) -> bool {
    forall|k: int| 0 <= k < links.len() ==> (#[trigger] links[k]).a < faces && links[k].b < faces
}

pub open spec fn linked(links: Seq<FaceLink>) -> spec_fn(int, int) -> bool {
    |x: int, y: int|
        exists|k: int| 0 <= k < links.len() && (#[trigger] links[k]).a == x && links[k].b == y
}

pub open spec fn reached(links: Seq<FaceLink>, faces: int, outer: int, face: int) -> bool {
    connected(faces, linked(links), outer, face)
}

/// Which faces hold material: not the outer one, and another answer across each
/// boundary edge.
pub open spec fn labelling(material: spec_fn(int) -> bool, links: Seq<FaceLink>, faces: int, outer: int) -> bool {
    &&& !material(outer)
    &&& forall|k: int|
        0 <= k < links.len() && reached(links, faces, outer, (#[trigger] links[k]).a as int) ==> material(
            links[k].b as int,
        ) == (material(links[k].a as int) != links[k].toggle)
}

pub open spec fn inside_by(inside: Seq<usize>, material: spec_fn(int) -> bool, links: Seq<FaceLink>, faces: int, outer: int) -> bool {
    &&& ascending_indices(inside)
    &&& forall|f: usize| #[trigger]
        inside.contains(f) <==> f < faces && reached(links, faces, outer, f as int) && material(f as int)
}

/// A neighbour of a face, and whether the edge between them toggles.
spec fn neighbour(links: Seq<FaceLink>, x: int, y: int, toggle: bool) -> bool {
    exists|k: int|
        0 <= k < links.len() && (#[trigger] links[k]).toggle == toggle && ((links[k].a == x && links[k].b == y)
            || (links[k].a == y && links[k].b == x))
}

spec fn lists_neighbours(lists: Seq<Vec<(usize, bool)>>, links: Seq<FaceLink>, faces: int) -> bool {
    &&& lists.len() == faces
    &&& forall|x: int, e: int|
        0 <= x < faces && 0 <= e < lists[x]@.len() ==> (#[trigger] lists[x]@[e]).0 < faces && neighbour(
            links,
            x,
            lists[x]@[e].0 as int,
            lists[x]@[e].1,
        )
    &&& forall|k: int|
        0 <= k < links.len() ==> lists[(#[trigger] links[k]).a as int]@.contains((links[k].b, links[k].toggle))
            && lists[links[k].b as int]@.contains((links[k].a, links[k].toggle))
}

#[verifier::loop_isolation(false)]
fn neighbour_lists(links: &Vec<FaceLink>, faces: usize) -> (lists: Vec<Vec<(usize, bool)>>)
    requires
        links_known(links@, faces as int),
    ensures
        lists_neighbours(lists@, links@, faces as int),
{
    let mut lists: Vec<Vec<(usize, bool)>> = Vec::new();
    let mut f: usize = 0;
    while f < faces
        invariant
            f <= faces,
            lists.len() == f,
            forall|x: int| 0 <= x < f ==> (#[trigger] lists@[x])@.len() == 0,
        decreases faces - f,
    {
        lists.push(Vec::new());
        f += 1;
    }
    let mut k: usize = 0;
    while k < links.len()
        invariant
            k <= links.len(),
            lists@.len() == faces,
            forall|x: int, e: int|
                0 <= x < faces && 0 <= e < lists@[x]@.len() ==> (#[trigger] lists@[x]@[e]).0 < faces && neighbour(links@, x, lists@[x]@[e].0 as int, lists@[x]@[e].1),
            forall|m: int|
                0 <= m < k ==> lists@[(#[trigger] links@[m]).a as int]@.contains((links@[m].b, links@[m].toggle))
                    && lists@[links@[m].b as int]@.contains((links@[m].a, links@[m].toggle)),
        decreases links.len() - k,
    {
        let link = links[k];
        let ghost start = lists@;
        assert(links@[k as int].a < faces);
        let mut list = lists.remove(link.a);
        list.push((link.b, link.toggle));
        lists.insert(link.a, list);
        let ghost middle = lists@;
        let mut list = lists.remove(link.b);
        list.push((link.a, link.toggle));
        lists.insert(link.b, list);
        proof {
            assert(neighbour(links@, link.a as int, link.b as int, link.toggle)) by {
                assert(links@[k as int].toggle == link.toggle);
            }
            assert(neighbour(links@, link.b as int, link.a as int, link.toggle)) by {
                assert(links@[k as int].toggle == link.toggle);
            }
            assert forall|x: int| 0 <= x < faces implies grown_by(start[x]@, #[trigger] lists@[x]@) by {
                assert(grown_by(start[x]@, middle[x]@));
                assert(grown_by(middle[x]@, lists@[x]@));
            }
            assert forall|x: int, e: int| 0 <= x < faces && 0 <= e < lists@[x]@.len() implies (#[trigger] lists@[x]@[e]).0 < faces && neighbour(links@, x, lists@[x]@[e].0 as int, lists@[x]@[e].1) by {
                if e < start[x]@.len() {
                    assert(lists@[x]@[e] == start[x]@[e]);
                } else if e < middle[x]@.len() {
                    assert(lists@[x]@[e] == middle[x]@[e]);
                }
            }
            assert(middle[link.a as int]@[start[link.a as int]@.len() as int] == (link.b, link.toggle));
            assert(grown_by(middle[link.a as int]@, lists@[link.a as int]@));
            assert(lists@[link.a as int]@[start[link.a as int]@.len() as int] == (link.b, link.toggle));
            assert(lists@[link.b as int]@[middle[link.b as int]@.len() as int] == (link.a, link.toggle));
            assert forall|m: int| 0 <= m < k + 1 implies lists@[(#[trigger] links@[m]).a as int]@.contains((links@[m].b, links@[m].toggle))
                && lists@[links@[m].b as int]@.contains((links@[m].a, links@[m].toggle)) by {
                if m < k {
                    grown_contains(start[links@[m].a as int]@, lists@[links@[m].a as int]@, (links@[m].b, links@[m].toggle));
                    grown_contains(start[links@[m].b as int]@, lists@[links@[m].b as int]@, (links@[m].a, links@[m].toggle));
                }
            }
        }
        k += 1;
    }
    lists
}

spec fn grown_by<T>(before: Seq<T>, after: Seq<T>) -> bool {
    before.len() <= after.len() && forall|i: int| 0 <= i < before.len() ==> after[i] == before[i]
}

proof fn grown_contains<T>(before: Seq<T>, after: Seq<T>, x: T)
    requires
        grown_by(before, after),
        before.contains(x),
    ensures
        after.contains(x),
{
    let i = choose|i: int| 0 <= i < before.len() && before[i] == x;
    assert(after[i] == x);
}

spec fn open_faces(values: Seq<Option<bool>>, upto: int) -> nat
    decreases upto,
{
    if upto <= 0 {
        0
    } else if values[upto - 1] is None {
        open_faces(values, upto - 1) + 1
    } else {
        open_faces(values, upto - 1)
    }
}

proof fn open_faces_update(values: Seq<Option<bool>>, i: int, value: bool, upto: int)
    requires
        0 <= i < values.len(),
        0 <= upto <= values.len(),
        values[i] is None,
    ensures
        open_faces(values.update(i, Some(value)), upto) == open_faces(values, upto) - (if i < upto {
            1int
        } else {
            0int
        }),
    decreases upto,
{
    if upto > 0 {
        open_faces_update(values, i, value, upto - 1);
    }
}

/// Every neighbour of the face has a value that agrees with it.
spec fn settled(values: Seq<Option<bool>>, list: Seq<(usize, bool)>, x: int, upto: int) -> bool {
    forall|e: int|
        0 <= e < upto ==> values[(#[trigger] list[e]).0 as int] == Some(values[x]->0 != list[e].1)
}

spec fn forced(values: Seq<Option<bool>>, links: Seq<FaceLink>, faces: int, outer: int) -> bool {
    forall|material: spec_fn(int) -> bool, i: int| #[trigger]
        labelling(material, links, faces, outer) && 0 <= i < faces && (#[trigger] values[i]) is Some
            ==> material(i) == values[i]->0
}

proof fn across(
    material: spec_fn(int) -> bool,
    links: Seq<FaceLink>,
    faces: int,
    outer: int,
    x: int,
    y: int,
    toggle: bool,
)
    requires
        labelling(material, links, faces, outer),
        links_known(links, faces),
        neighbour(links, x, y, toggle),
        reached(links, faces, outer, x),
    ensures
        material(y) == (material(x) != toggle),
        reached(links, faces, outer, y),
{
    next_reached(links, faces, outer, x, y, toggle);
    let k = choose|k: int|
        0 <= k < links.len() && (#[trigger] links[k]).toggle == toggle && ((links[k].a == x && links[k].b == y) || (links[k].a == y && links[k].b == x));
    assert(reached(links, faces, outer, links[k].a as int));
}

proof fn next_reached(links: Seq<FaceLink>, faces: int, outer: int, x: int, y: int, toggle: bool)
    requires
        links_known(links, faces),
        neighbour(links, x, y, toggle),
        reached(links, faces, outer, x),
    ensures
        reached(links, faces, outer, y),
{
    let k = choose|k: int|
        0 <= k < links.len() && (#[trigger] links[k]).toggle == toggle && ((links[k].a == x && links[k].b == y) || (links[k].a == y && links[k].b == x));
    let rel = linked(links);
    assert(touch(rel, x, y)) by {
        if links[k].a == x && links[k].b == y {
            assert(rel(x, y));
        } else {
            assert(rel(y, x));
        }
    }
    connected_step(faces, rel, x, y);
    connected_transitive(faces, rel, outer, x, y);
}

/// The faces with material, ascending. The boundary must part material from
/// void consistently all around.
#[verifier::rlimit(60)]
#[verifier::loop_isolation(false)]
pub fn interior(links: &Vec<FaceLink>, faces: usize, outer: usize) -> (r: Result<Vec<usize>, &'static str>)
    requires
        links_known(links@, faces as int),
        outer < faces,
    ensures
        match r {
            Ok(inside) => exists|material: spec_fn(int) -> bool| #[trigger]
                labelling(material, links@, faces as int, outer as int) && inside_by(
                    inside@,
                    material,
                    links@,
                    faces as int,
                    outer as int,
                ),
            Err(error) => {
                &&& error@ == "inconsistent mesh boundary graph"@
                &&& forall|material: spec_fn(int) -> bool| !#[trigger]
                    labelling(material, links@, faces as int, outer as int)
            },
        },
{
    let ghost n = faces as int;
    let lists = neighbour_lists(links, faces);
    let mut values: Vec<Option<bool>> = Vec::new();
    let mut f: usize = 0;
    while f < faces
        invariant
            f <= faces,
            values.len() == f,
            forall|x: int| 0 <= x < f ==> (#[trigger] values@[x]) is None,
        decreases faces - f,
    {
        values.push(None);
        f += 1;
    }
    values.set(outer, Some(false));
    let mut pending: Vec<usize> = Vec::new();
    pending.push(outer);
    proof {
        connected_reflexive(n, linked(links@), outer as int);
        assert(pending@[0] == outer);
    }
    while pending.len() > 0
        invariant
            values@.len() == n,
            values@[outer as int] == Some(false),
            forall|p: int| 0 <= p < pending@.len() ==> #[trigger] pending@[p] < n && values@[pending@[p] as int] is Some,
            forall|x: int| 0 <= x < n && (#[trigger] values@[x]) is Some ==> reached(links@, n, outer as int, x),
            forced(values@, links@, n, outer as int),
            forall|x: int|
                0 <= x < n && (#[trigger] values@[x]) is Some ==> pending@.contains(x as usize) || settled(values@, lists@[x]@, x, lists@[x]@.len() as int),
        decreases open_faces(values@, n), pending.len(),
    {
        let ghost before_pending = pending@;
        let x: usize = pending[pending.len() - 1];
        pending.pop();
        let ghost rest = pending@;
        assert(before_pending =~= rest.push(x));
        assert(before_pending[before_pending.len() - 1] == x);
        assert forall|y: int| 0 <= y < n && (#[trigger] values@[y]) is Some && y != x implies pending@.contains(y as usize) || settled(values@, lists@[y]@, y, lists@[y]@.len() as int) by {
            if before_pending.contains(y as usize) {
                let p = choose|p: int| 0 <= p < before_pending.len() && before_pending[p] == y as usize;
                assert(rest[p] == y as usize);
            }
        }
        let own: bool = match values[x] {
            Some(value) => value,
            None => {
                assert(false);
                false
            },
        };
        let ghost entry = open_faces(values@, n);
        let mut e: usize = 0;
        while e < lists[x].len()
            invariant
                x < n,
                e <= lists@[x as int]@.len(),
                values@.len() == n,
                values@[outer as int] == Some(false),
                values@[x as int] == Some(own),
                forall|p: int| 0 <= p < pending@.len() ==> #[trigger] pending@[p] < n && values@[pending@[p] as int] is Some,
                forall|y: int| 0 <= y < n && (#[trigger] values@[y]) is Some ==> reached(links@, n, outer as int, y),
                forced(values@, links@, n, outer as int),
                settled(values@, lists@[x as int]@, x as int, e as int),
                forall|y: int|
                    0 <= y < n && (#[trigger] values@[y]) is Some && y != x ==> pending@.contains(y as usize) || settled(values@, lists@[y]@, y, lists@[y]@.len() as int),
                open_faces(values@, n) < entry || (open_faces(values@, n) == entry && pending@ == rest),
            decreases lists@[x as int]@.len() - e,
        {
            let (y, toggle) = lists[x][e];
            let value: bool = own != toggle;
            assert(lists@[x as int]@[e as int].0 < n);
            assert(neighbour(links@, x as int, y as int, toggle));
            proof {
                assert forall|material: spec_fn(int) -> bool| #[trigger] labelling(material, links@, n, outer as int) implies material(y as int) == value by {
                    assert(values@[x as int] is Some);
                    assert(material(x as int) == own);
                    across(material, links@, n, outer as int, x as int, y as int, toggle);
                }
            }
            match values[y] {
                Some(previous) => {
                    if previous != value {
                        proof {
                            assert forall|material: spec_fn(int) -> bool| !#[trigger] labelling(material, links@, n, outer as int) by {
                                if labelling(material, links@, n, outer as int) {
                                    assert(values@[y as int] is Some);
                                    assert(material(y as int) == previous);
                                    assert(material(y as int) == value);
                                }
                            }
                        }
                        return Err("inconsistent mesh boundary graph");
                    }
                },
                None => {
                    let ghost before = values@;
                    let ghost old_pending = pending@;
                    values.set(y, Some(value));
                    pending.push(y);
                    proof {
                        next_reached(links@, n, outer as int, x as int, y as int, toggle);
                        open_faces_update(before, y as int, value, n);
                        assert(pending@[old_pending.len() as int] == y);
                        assert forall|material: spec_fn(int) -> bool, i: int| #[trigger] labelling(material, links@, n, outer as int) && 0 <= i < n && (#[trigger] values@[i]) is Some
                            implies material(i) == values@[i]->0 by {
                            if i != y {
                                assert(before[i] is Some);
                            }
                        }
                        assert forall|z: int|
                            0 <= z < n && (#[trigger] values@[z]) is Some && z != x implies pending@.contains(z as usize) || settled(values@, lists@[z]@, z, lists@[z]@.len() as int) by {
                            if z == y {
                                assert(pending@.contains(y));
                            } else {
                                assert(before[z] is Some);
                                if old_pending.contains(z as usize) {
                                    let p = choose|p: int| 0 <= p < old_pending.len() && old_pending[p] == z as usize;
                                    assert(pending@[p] == z as usize);
                                } else {
                                    assert(settled(before, lists@[z]@, z, lists@[z]@.len() as int));
                                    assert forall|d: int| 0 <= d < lists@[z]@.len() implies values@[(#[trigger] lists@[z]@[d]).0 as int] == Some(values@[z]->0 != lists@[z]@[d].1) by {
                                        assert(before[lists@[z]@[d].0 as int] is Some);
                                    }
                                }
                            }
                        }
                        assert forall|d: int| 0 <= d < e implies values@[(#[trigger] lists@[x as int]@[d]).0 as int] == Some(values@[x as int]->0 != lists@[x as int]@[d].1) by {
                            assert(before[lists@[x as int]@[d].0 as int] is Some);
                        }
                    }
                },
            }
            e += 1;
        }
    }
    let ghost material = |i: int| 0 <= i < n && values@[i] == Some(true);
    proof {
        let seen = |i: int| 0 <= i < n && values@[i] is Some;
        let rel = linked(links@);
        assert forall|x: int, y: int| 0 <= x < n && 0 <= y < n && seen(x) && #[trigger] touch(rel, x, y) implies seen(y) by {
            let k = if rel(x, y) {
                choose|k: int| 0 <= k < links@.len() && (#[trigger] links@[k]).a == x && links@[k].b == y
            } else {
                choose|k: int| 0 <= k < links@.len() && (#[trigger] links@[k]).a == y && links@[k].b == x
            };
            assert(lists@[links@[k].a as int]@.contains((links@[k].b, links@[k].toggle)));
            assert(lists@[x]@.contains((y as usize, links@[k].toggle)));
            let d = choose|d: int| 0 <= d < lists@[x]@.len() && lists@[x]@[d] == (y as usize, links@[k].toggle);
            assert(settled(values@, lists@[x]@, x, lists@[x]@.len() as int));
            assert(values@[lists@[x]@[d].0 as int] is Some);
        }
        assert forall|i: int| 0 <= i < n && #[trigger] reached(links@, n, outer as int, i) implies values@[i] is Some by {
            connected_closed(n, rel, outer as int, i, seen);
        }
        assert forall|k: int| 0 <= k < links@.len() && reached(links@, n, outer as int, (#[trigger] links@[k]).a as int) implies material(links@[k].b as int) == (material(links@[k].a as int) != links@[k].toggle) by {
            let x = links@[k].a as int;
            assert(values@[x] is Some);
            assert(lists@[x]@.contains((links@[k].b, links@[k].toggle)));
            let d = choose|d: int| 0 <= d < lists@[x]@.len() && lists@[x]@[d] == (links@[k].b, links@[k].toggle);
            assert(settled(values@, lists@[x]@, x, lists@[x]@.len() as int));
            assert(values@[lists@[x]@[d].0 as int] == Some(values@[x]->0 != lists@[x]@[d].1));
        }
        assert(labelling(material, links@, n, outer as int));
    }
    let mut inside: Vec<usize> = Vec::new();
    let mut f: usize = 0;
    while f < faces
        invariant
            f <= faces,
            ascending_indices(inside@),
            forall|i: int| 0 <= i < inside@.len() ==> #[trigger] inside@[i] < f && values@[inside@[i] as int] == Some(true),
            forall|x: usize| x < f && values@[x as int] == Some(true) ==> #[trigger] inside@.contains(x),
        decreases faces - f,
    {
        let ghost before = inside@;
        let own: bool = match values[f] {
            Some(value) => value,
            None => false,
        };
        if own {
            inside.push(f);
            assert(inside@[before.len() as int] == f);
        }
        proof {
            assert(grown_by(before, inside@));
            assert forall|x: usize| x < f + 1 && values@[x as int] == Some(true) implies #[trigger] inside@.contains(x) by {
                if x < f {
                    grown_contains(before, inside@, x);
                }
            }
            assert forall|i: int| 0 <= i < inside@.len() implies #[trigger] inside@[i] < f + 1 && values@[inside@[i] as int] == Some(true) by {
                if i < before.len() {
                    assert(inside@[i] == before[i]);
                }
            }
        }
        f += 1;
    }
    proof {
        assert forall|x: usize| #[trigger] inside@.contains(x) <==> x < n && reached(links@, n, outer as int, x as int) && material(x as int) by {
            if inside@.contains(x) {
                let i = choose|i: int| 0 <= i < inside@.len() && inside@[i] == x;
                assert(values@[inside@[i] as int] == Some(true));
            }
        }
        assert(labelling(material, links@, n, outer as int) && inside_by(inside@, material, links@, n, outer as int));
    }
    Ok(inside)
}

/// What holds material does not depend on the labelling that shows it.
pub proof fn interior_is_determined(
    first: spec_fn(int) -> bool,
    second: spec_fn(int) -> bool,
    links: Seq<FaceLink>,
    faces: int,
    outer: int,
    face: int,
)
    requires
        links_known(links, faces),
        0 <= outer < faces,
        labelling(first, links, faces, outer),
        labelling(second, links, faces, outer),
        reached(links, faces, outer, face),
    ensures
        first(face) == second(face),
{
    let rel = linked(links);
    let same = |x: int| reached(links, faces, outer, x) && first(x) == second(x);
    connected_reflexive(faces, rel, outer);
    assert forall|x: int, y: int| 0 <= x < faces && 0 <= y < faces && same(x) && #[trigger] touch(rel, x, y) implies same(y) by {
        let k = if rel(x, y) {
            choose|k: int| 0 <= k < links.len() && (#[trigger] links[k]).a == x && links[k].b == y
        } else {
            choose|k: int| 0 <= k < links.len() && (#[trigger] links[k]).a == y && links[k].b == x
        };
        assert(neighbour(links, x, y, links[k].toggle)) by {
            assert(links[k].toggle == links[k].toggle);
        }
        across(first, links, faces, outer, x, y, links[k].toggle);
        across(second, links, faces, outer, x, y, links[k].toggle);
    }
    connected_closed(faces, rel, outer, face, same);
}

/// Faces with material that no barrier parts.
pub open spec fn one_domain(links: Seq<FaceLink>, inside: Seq<usize>) -> spec_fn(int, int) -> bool {
    |x: int, y: int|
        exists|k: int|
            0 <= k < links.len() && !(#[trigger] links[k]).barrier && links[k].a == x && links[k].b == y
                && inside.contains(links[k].a) && inside.contains(links[k].b)
}

pub open spec fn inside_groups(groups: Seq<Vec<usize>>, inside: Seq<usize>, upto: int) -> Seq<Seq<usize>>
    decreases upto,
{
    if upto <= 0 {
        Seq::empty()
    } else if inside.contains(groups[upto - 1]@[0]) {
        inside_groups(groups, inside, upto - 1).push(groups[upto - 1]@)
    } else {
        inside_groups(groups, inside, upto - 1)
    }
}

pub open spec fn lists_of(groups: Seq<Vec<usize>>) -> Seq<Seq<usize>> {
    Seq::new(groups.len(), |g: int| groups[g]@)
}

/// The refinement domains of the material, each ascending, by their least face.
#[verifier::loop_isolation(false)]
pub fn material_regions(links: &Vec<FaceLink>, faces: usize, inside: &Vec<usize>) -> (r: Vec<Vec<usize>>)
    requires
        links_known(links@, faces as int),
        ascending_indices(inside@),
    ensures
        exists|groups: Seq<Vec<usize>>| #[trigger]
            components_of(groups, faces as int, one_domain(links@, inside@)) && lists_of(r@) == inside_groups(
                groups,
                inside@,
                groups.len() as int,
            ),
{
    let mut pairs: Vec<(usize, usize)> = Vec::new();
    let mut k: usize = 0;
    while k < links.len()
        invariant
            k <= links.len(),
            forall|p: int| 0 <= p < pairs@.len() ==> (#[trigger] pairs@[p]).0 < faces && pairs@[p].1 < faces && one_domain(links@, inside@)(pairs@[p].0 as int, pairs@[p].1 as int),
            forall|m: int|
                0 <= m < k && !(#[trigger] links@[m]).barrier && inside@.contains(links@[m].a) && inside@.contains(links@[m].b) ==> pairs@.contains((links@[m].a, links@[m].b)),
        decreases links.len() - k,
    {
        let link = links[k];
        let ghost before = pairs@;
        if !link.barrier && crate::ordering::find_index(inside, link.a).is_some() && crate::ordering::find_index(inside, link.b).is_some() {
            pairs.push((link.a, link.b));
            proof {
                assert(pairs@[before.len() as int] == (link.a, link.b));
                assert(!links@[k as int].barrier);
                assert(inside@.contains(link.a) && inside@.contains(link.b));
                assert(one_domain(links@, inside@)(link.a as int, link.b as int));
            }
        }
        proof {
            assert(grown_by(before, pairs@));
            assert forall|m: int| 0 <= m < k + 1 && !(#[trigger] links@[m]).barrier && inside@.contains(links@[m].a) && inside@.contains(links@[m].b) implies pairs@.contains((links@[m].a, links@[m].b)) by {
                if m < k {
                    grown_contains(before, pairs@, (links@[m].a, links@[m].b));
                }
            }
            assert forall|p: int| 0 <= p < pairs@.len() implies (#[trigger] pairs@[p]).0 < faces && pairs@[p].1 < faces && one_domain(links@, inside@)(pairs@[p].0 as int, pairs@[p].1 as int) by {
                if p < before.len() {
                    assert(pairs@[p] == before[p]);
                }
            }
        }
        k += 1;
    }
    let groups = connected_groups(faces, &pairs);
    proof {
        let local = pair_relation(pairs@);
        let whole = one_domain(links@, inside@);
        assert forall|x: int, y: int| local(x, y) implies #[trigger] whole(x, y) by {
            let p = choose|p: int| 0 <= p < pairs@.len() && #[trigger] pairs@[p] == (x as usize, y as usize) && pairs@[p].0 == x && pairs@[p].1 == y;
            assert(one_domain(links@, inside@)(pairs@[p].0 as int, pairs@[p].1 as int));
        }
        assert forall|x: int, y: int| whole(x, y) implies #[trigger] local(x, y) by {
            let m = choose|m: int| 0 <= m < links@.len() && !(#[trigger] links@[m]).barrier && links@[m].a == x && links@[m].b == y && inside@.contains(links@[m].a) && inside@.contains(links@[m].b);
            assert(pairs@.contains((links@[m].a, links@[m].b)));
            let p = choose|p: int| 0 <= p < pairs@.len() && pairs@[p] == (links@[m].a, links@[m].b);
            assert(pairs@[p] == (x as usize, y as usize));
        }
        crate::connectivity::same_relation(groups@, faces as int, local, whole);
    }
    let mut r: Vec<Vec<usize>> = Vec::new();
    assert(lists_of(r@) =~= Seq::<Seq<usize>>::empty());
    let mut g: usize = 0;
    while g < groups.len()
        invariant
            g <= groups.len(),
            lists_of(r@) == inside_groups(groups@, inside@, g as int),
        decreases groups.len() - g,
    {
        assert(groups@[g as int]@.len() > 0);
        if crate::ordering::find_index(inside, groups[g][0]).is_some() {
            assert(inside@.contains(groups@[g as int]@[0]));
            let ghost before = r@;
            let copy = crate::ordering::copy_indices(&groups[g]);
            r.push(copy);
            assert(lists_of(r@) =~= lists_of(before).push(groups@[g as int]@));
        } else {
            assert(!inside@.contains(groups@[g as int]@[0]));
        }
        g += 1;
    }
    assert(components_of(groups@, faces as int, one_domain(links@, inside@)));
    r
}

/// What to do next about faces that are too large.
#[derive(Debug)]
pub enum SeedStep {
    /// No face is too large.
    Complete,
    /// The vertex budget is used up, or inserting brought nothing new.
    Exhausted,
    /// Points to insert, by the faces they are the centres of.
    Insert(Vec<usize>),
}

/// The faces that are too large.
pub open spec fn oversized(areas: Seq<Scalar>, limit: Scalar, upto: int) -> Seq<usize>
    decreases upto,
{
    if upto <= 0 {
        Seq::empty()
    } else if limit.lt(areas[upto - 1]) {
        oversized(areas, limit, upto - 1).push((upto - 1) as usize)
    } else {
        oversized(areas, limit, upto - 1)
    }
}

pub open spec fn size_keys(keys: Seq<i128>, areas: Seq<Scalar>, faces: Seq<usize>) -> bool {
    &&& keys.len() == faces.len()
    &&& forall|k: int| 0 <= k < faces.len() ==> #[trigger] keys[k] == -areas[faces[k] as int].total_rank()
}

/// The largest faces first, as many as the budget allows.
pub open spec fn largest_of(chosen: Seq<usize>, areas: Seq<Scalar>, faces: Seq<usize>, room: int) -> bool {
    exists|keys: Seq<i128>, order: Seq<usize>|
        size_keys(keys, areas, faces) && #[trigger] stable_order(keys, order) && chosen.len() == (if room
            < faces.len() {
            room
        } else {
            faces.len() as int
        }) && forall|k: int| 0 <= k < chosen.len() ==> #[trigger] chosen[k] == faces[order[k] as int]
}

pub open spec fn seeded(step: SeedStep, areas: Seq<Scalar>, limit: Scalar, used: int, budget: int) -> bool {
    let faces = oversized(areas, limit, areas.len() as int);
    if faces.len() == 0 {
        step is Complete
    } else if used >= budget {
        step is Exhausted
    } else {
        step matches SeedStep::Insert(chosen) && largest_of(chosen@, areas, faces, budget - used)
    }
}

/// Chooses the faces to split next: the largest ones first.
#[verifier::loop_isolation(false)]
pub fn seed_step(areas: &Vec<Scalar>, limit: &Scalar, used: usize, budget: usize) -> (step: SeedStep)
    ensures
        seeded(step, areas@, *limit, used as int, budget as int),
{
    let mut faces: Vec<usize> = Vec::new();
    let mut k: usize = 0;
    while k < areas.len()
        invariant
            k <= areas.len(),
            faces@ == oversized(areas@, *limit, k as int),
            forall|m: int| 0 <= m < faces@.len() ==> #[trigger] faces@[m] < k,
        decreases areas.len() - k,
    {
        if limit.less(&areas[k]) {
            faces.push(k);
        }
        k += 1;
    }
    if faces.len() == 0 {
        return SeedStep::Complete;
    }
    if used >= budget {
        return SeedStep::Exhausted;
    }
    let mut keys: Vec<i128> = Vec::new();
    let mut k: usize = 0;
    while k < faces.len()
        invariant
            k <= faces.len(),
            keys.len() == k,
            forall|m: int| 0 <= m < k ==> #[trigger] keys@[m] == -areas@[faces@[m] as int].total_rank(),
        decreases faces.len() - k,
    {
        keys.push(-(areas[faces[k]].total_key() as i128));
        k += 1;
    }
    let order = sorted_indices(&keys);
    let room: usize = budget - used;
    let count: usize = if room < faces.len() {
        room
    } else {
        faces.len()
    };
    let mut chosen: Vec<usize> = Vec::new();
    let mut k: usize = 0;
    while k < count
        invariant
            k <= count <= faces.len(),
            chosen.len() == k,
            forall|m: int| 0 <= m < k ==> #[trigger] chosen@[m] == faces@[order@[m] as int],
        decreases count - k,
    {
        chosen.push(faces[order[k]]);
        k += 1;
    }
    assert(size_keys(keys@, areas@, faces@) && stable_order(keys@, order@));
    SeedStep::Insert(chosen)
}

/// What to do next about faces with too small an angle.
#[derive(Debug, Clone, Copy, PartialEq, Eq, Structural)]
pub enum AngleStep {
    Complete,
    Exhausted,
    /// The candidate to insert.
    Insert(usize),
}

pub open spec fn smallest_angle(angles: Seq<Scalar>, i: int) -> bool {
    &&& 0 <= i < angles.len()
    &&& forall|j: int|
        0 <= j < angles.len() ==> angles[i].total_rank() <= (#[trigger] angles[j]).total_rank()
    &&& forall|j: int| 0 <= j < i ==> angles[i].total_rank() < (#[trigger] angles[j]).total_rank()
}

pub open spec fn angle_chosen(step: AngleStep, angles: Seq<Scalar>, used: int, budget: int) -> bool {
    if angles.len() == 0 {
        step == AngleStep::Complete
    } else if used >= budget {
        step == AngleStep::Exhausted
    } else {
        step matches AngleStep::Insert(i) && smallest_angle(angles, i as int)
    }
}

/// Chooses the candidate with the smallest angle. Only one is taken at a time:
/// circumcentres become stale after an insertion.
#[verifier::loop_isolation(false)]
pub fn angle_step(angles: &Vec<Scalar>, used: usize, budget: usize) -> (step: AngleStep)
    ensures
        angle_chosen(step, angles@, used as int, budget as int),
{
    if angles.len() == 0 {
        return AngleStep::Complete;
    }
    if used >= budget {
        return AngleStep::Exhausted;
    }
    let mut best: usize = 0;
    let mut k: usize = 1;
    while k < angles.len()
        invariant
            best < k <= angles.len(),
            forall|j: int| 0 <= j < k ==> angles@[best as int].total_rank() <= (#[trigger] angles@[j]).total_rank(),
            forall|j: int| 0 <= j < best ==> angles@[best as int].total_rank() < (#[trigger] angles@[j]).total_rank(),
        decreases angles.len() - k,
    {
        if angles[k].total_key() < angles[best].total_key() {
            best = k;
        }
        k += 1;
    }
    AngleStep::Insert(best)
}

/// The vertices that a surface may still get.
pub fn vertices_left(limit: usize, added: usize) -> (r: usize)
    ensures
        r == if added < limit {
            limit - added
        } else {
            0
        },
{
    if added < limit {
        limit - added
    } else {
        0
    }
}

/// Across an edge of the material boundary the answer changes, and across any other it does
/// not; outside there is none.
pub proof fn material_changes_at_the_boundary(material: spec_fn(int) -> bool, links: Seq<FaceLink>, faces: int, outer: int, k: int)
    requires
        labelling(material, links, faces, outer),
        0 <= k < links.len(),
        reached(links, faces, outer, links[k].a as int),
    ensures
        !material(outer),
        links[k].toggle ==> material(links[k].a as int) != material(links[k].b as int),
        !links[k].toggle ==> material(links[k].a as int) == material(links[k].b as int),
{
}

/// A group is a region exactly when its first face holds material.
pub proof fn regions_hold_material(groups: Seq<Vec<usize>>, inside: Seq<usize>, upto: int, list: Seq<usize>)
    requires
        0 <= upto <= groups.len(),
    ensures
        inside_groups(groups, inside, upto).contains(list) <==> exists|g: int|
            0 <= g < upto && (#[trigger] groups[g])@ == list && inside.contains(groups[g]@[0]),
    decreases upto,
{
    if upto > 0 {
        regions_hold_material(groups, inside, upto - 1, list);
        crate::ordering::pushed_contains(inside_groups(groups, inside, upto - 1), groups[upto - 1]@, list);
    }
}

/// A face is too large exactly when its area is above the limit.
pub proof fn large_faces_are_listed(areas: Seq<Scalar>, limit: Scalar, upto: int, face: usize)
    requires
        0 <= upto <= areas.len() <= usize::MAX,
    ensures
        oversized(areas, limit, upto).contains(face) <==> face < upto && limit.lt(areas[face as int]),
    decreases upto,
{
    if upto > 0 {
        large_faces_are_listed(areas, limit, upto - 1, face);
        crate::ordering::pushed_contains(oversized(areas, limit, upto - 1), (upto - 1) as usize, face);
    }
}

/// Seeding is complete exactly when no face is too large, and comes to an end where the budget
/// is used up before that.
pub proof fn seeding_ends(step: SeedStep, areas: Seq<Scalar>, limit: Scalar, used: int, budget: int)
    requires
        seeded(step, areas, limit, used, budget),
        areas.len() <= usize::MAX,
    ensures
        step is Complete <==> forall|f: int| 0 <= f < areas.len() ==> !limit.lt(#[trigger] areas[f]),
        step is Exhausted ==> used >= budget,
        step matches SeedStep::Insert(chosen) ==> used < budget && chosen@.len() <= budget - used && forall|k: int|
            0 <= k < chosen@.len() ==> #[trigger] chosen@[k] < areas.len() && limit.lt(areas[chosen@[k] as int]),
{
    let faces = oversized(areas, limit, areas.len() as int);
    assert forall|f: int| 0 <= f < areas.len() implies (faces.contains(f as usize) <==> limit.lt(#[trigger] areas[f])) by {
        large_faces_are_listed(areas, limit, areas.len() as int, f as usize);
    }
    if faces.len() > 0 {
        let face = faces[0];
        assert(faces.contains(face));
        large_faces_are_listed(areas, limit, areas.len() as int, face);
        assert(limit.lt(areas[face as int]));
    }
    if let SeedStep::Insert(chosen) = step {
        assert forall|k: int| 0 <= k < chosen@.len() implies #[trigger] chosen@[k] < areas.len() && limit.lt(areas[chosen@[k] as int]) by {
            let (keys, order) = choose|keys: Seq<i128>, order: Seq<usize>|
                size_keys(keys, areas, faces) && #[trigger] stable_order(keys, order) && chosen@.len() == (if budget - used < faces.len() {
                    budget - used
                } else {
                    faces.len() as int
                }) && forall|k: int| 0 <= k < chosen@.len() ==> #[trigger] chosen@[k] == faces[order[k] as int];
            assert(chosen@[k] == faces[order[k] as int]);
            assert(order[k] < faces.len());
            assert(faces.contains(chosen@[k]));
            large_faces_are_listed(areas, limit, areas.len() as int, chosen@[k]);
        }
    }
}

/// The face that is chosen first is the largest.
pub proof fn largest_faces_are_split_first(chosen: Seq<usize>, areas: Seq<Scalar>, faces: Seq<usize>, room: int, i: int, j: int)
    requires
        largest_of(chosen, areas, faces, room),
        0 <= i < j < chosen.len(),
    ensures
        areas[chosen[i] as int].total_rank() >= areas[chosen[j] as int].total_rank(),
{
    let (keys, order) = choose|keys: Seq<i128>, order: Seq<usize>|
        size_keys(keys, areas, faces) && #[trigger] stable_order(keys, order) && chosen.len() == (if room < faces.len() {
            room
        } else {
            faces.len() as int
        }) && forall|k: int| 0 <= k < chosen.len() ==> #[trigger] chosen[k] == faces[order[k] as int];
    assert(crate::ordering::key_before(keys, order[i], order[j]));
    assert(keys[order[i] as int] == -areas[faces[order[i] as int] as int].total_rank());
    assert(keys[order[j] as int] == -areas[faces[order[j] as int] as int].total_rank());
    assert(chosen[i] == faces[order[i] as int]);
    assert(chosen[j] == faces[order[j] as int]);
}

/// A candidate that is chosen has no greater angle than any other; there is none where nothing
/// is left or the budget is used up.
pub proof fn smallest_angles_are_mended_first(step: AngleStep, angles: Seq<Scalar>, used: int, budget: int, j: int)
    requires
        angle_chosen(step, angles, used, budget),
        0 <= j < angles.len(),
    ensures
        step is Exhausted <==> used >= budget,
        step matches AngleStep::Insert(i) ==> i < angles.len() && angles[i as int].total_rank() <= angles[j].total_rank(),
        !(step is Complete),
{
}

/// A face is inside exactly when it can be reached and holds material.
pub proof fn inside_faces_hold_material(
    inside: Seq<usize>,
    material: spec_fn(int) -> bool,
    links: Seq<FaceLink>,
    faces: int,
    outer: int,
    k: int,
)
    requires
        labelling(material, links, faces, outer),
        inside_by(inside, material, links, faces, outer),
        0 <= k < links.len(),
        links[k].a < faces && links[k].b < faces,
        0 <= outer < faces,
        reached(links, faces, outer, links[k].a as int),
    ensures
        links[k].toggle ==> (inside.contains(links[k].a) <==> !inside.contains(links[k].b)),
        !links[k].toggle ==> (inside.contains(links[k].a) <==> inside.contains(links[k].b)),
        0 <= outer <= usize::MAX ==> !inside.contains(outer as usize),
{
    let rel = linked(links);
    assert(rel(links[k].a as int, links[k].b as int));
    crate::connectivity::connected_step(faces, rel, links[k].a as int, links[k].b as int);
    crate::connectivity::connected_transitive(faces, rel, outer, links[k].a as int, links[k].b as int);
    assert(reached(links, faces, outer, links[k].b as int));
    assert(inside.contains(links[k].a) <==> material(links[k].a as int));
    assert(inside.contains(links[k].b) <==> material(links[k].b as int));
}

/// Two faces are of one domain across an edge exactly when both are inside and the edge is no
/// barrier.
pub proof fn barriers_part_the_domains(links: Seq<FaceLink>, inside: Seq<usize>, k: int)
    requires
        0 <= k < links.len(),
    ensures
        !links[k].barrier && inside.contains(links[k].a) && inside.contains(links[k].b) ==> one_domain(links, inside)(
            links[k].a as int,
            links[k].b as int,
        ),
        !inside.contains(links[k].a) ==> !one_domain(links, inside)(links[k].a as int, links[k].b as int),
        (forall|m: int| 0 <= m < links.len() && (#[trigger] links[m]).a == links[k].a && links[m].b == links[k].b ==> links[m].barrier)
            ==> !one_domain(links, inside)(links[k].a as int, links[k].b as int),
{
}

} // verus!
