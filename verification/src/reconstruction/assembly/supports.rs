//! Which support plane each surface uses, and who meets at a boundary node.
use vstd::prelude::*;
use crate::connectivity::{components_of, connected, in_some_group, linked_groups, share_label, touch};
use crate::ordering::{ascending, ascending_indices, sorted_indices, stable_order, unique_indices};
use crate::reconstruction::frame::Surface;
use crate::registry::Lists;
use crate::scalar::Scalar;

verus! {

/// Connected nearly coplanar patches can use one support. Larger patches are
/// asked first; every candidate is judged against the chosen support itself,
/// which prevents drift along a chain.
#[derive(Debug)]
pub struct Supports {
    representatives: Vec<usize>,
    assigned: Vec<bool>,
    order: Vec<usize>,
    position: usize,
}

pub open spec fn size_keys(keys: Seq<i128>, surfaces: Seq<Surface>) -> bool {
    &&& keys.len() == surfaces.len()
    &&& forall|i: int| 0 <= i < surfaces.len() ==> #[trigger] keys[i] == -(surfaces[i].nodes@.len() as int)
}

/// Surfaces by descending number of nodes, ties by index.
pub open spec fn largest_first(order: Seq<usize>, surfaces: Seq<Surface>) -> bool {
    exists|keys: Seq<i128>| #[trigger] size_keys(keys, surfaces) && stable_order(keys, order)
}

pub open spec fn common_node(surfaces: Seq<Surface>, a: int, b: int) -> bool {
    exists|node: usize| #[trigger]
        surfaces[a].nodes@.contains(node) && surfaces[b].nodes@.contains(node)
}

/// The surface may join the master's support.
pub open spec fn takes_part(assigned: Seq<bool>, compatible: Seq<bool>, master: int, x: int) -> bool {
    x == master || (!assigned[x] && compatible[x])
}

pub open spec fn meets(
    surfaces: Seq<Surface>,
    assigned: Seq<bool>,
    compatible: Seq<bool>,
    master: int,
) -> spec_fn(int, int) -> bool {
    |a: int, b: int|
        0 <= a < surfaces.len() && 0 <= b < surfaces.len() && takes_part(
            assigned,
            compatible,
            master,
            a,
        ) && takes_part(assigned, compatible, master, b) && common_node(surfaces, a, b)
}

/// The surface is reached from the master through surfaces that take part.
pub open spec fn absorbed(
    surfaces: Seq<Surface>,
    assigned: Seq<bool>,
    compatible: Seq<bool>,
    master: int,
    j: int,
) -> bool {
    &&& j != master
    &&& takes_part(assigned, compatible, master, j)
    &&& connected(surfaces.len() as int, meets(surfaces, assigned, compatible, master), master, j)
}

/// What `absorb` makes of surface `j`.
pub open spec fn assignment(
    surfaces: Seq<Surface>,
    compatible: Seq<bool>,
    master: usize,
    representatives: Seq<usize>,
    assigned: Seq<bool>,
    new_representatives: Seq<usize>,
    new_assigned: Seq<bool>,
    j: int,
) -> bool {
    if absorbed(surfaces, assigned, compatible, master as int, j) {
        new_representatives[j] == master && new_assigned[j]
    } else {
        new_representatives[j] == representatives[j] && new_assigned[j] == assigned[j]
    }
}

impl Supports {
    pub closed spec fn spec_representatives(&self) -> Seq<usize> {
        self.representatives@
    }

    pub closed spec fn spec_assigned(&self) -> Seq<bool> {
        self.assigned@
    }

    pub closed spec fn spec_order(&self) -> Seq<usize> {
        self.order@
    }

    /// Representatives stand for themselves, and whoever is not assigned yet
    /// does too.
    pub open spec fn sound(&self) -> bool {
        let n = self.spec_assigned().len();
        &&& self.spec_representatives().len() == n
        &&& forall|i: int|
            0 <= i < n ==> {
                let r = #[trigger] self.spec_representatives()[i];
                &&& r < n
                &&& self.spec_representatives()[r as int] == r
                &&& self.spec_assigned()[i] ==> self.spec_assigned()[r as int]
                &&& !self.spec_assigned()[i] ==> r == i
            }
    }

    pub closed spec fn well_formed(&self) -> bool {
        &&& self.sound()
        &&& self.order@.len() == self.assigned@.len()
        &&& self.position <= self.order@.len()
        &&& forall|k: int| 0 <= k < self.order@.len() ==> #[trigger] self.order@[k] < self.assigned@.len()
        &&& forall|k: int| 0 <= k < self.position ==> self.assigned@[#[trigger] self.order@[k] as int]
        &&& forall|i: usize| i < self.assigned@.len() ==> #[trigger] self.order@.contains(i)
    }

    #[verifier::loop_isolation(false)]
    pub fn new(surfaces: &Vec<Surface>) -> (r: Supports)
        ensures
            r.well_formed(),
            r.sound(),
            r.spec_assigned().len() == surfaces@.len(),
            forall|i: int| 0 <= i < surfaces@.len() ==> !#[trigger] r.spec_assigned()[i],
            forall|i: int| 0 <= i < surfaces@.len() ==> #[trigger] r.spec_representatives()[i] == i,
            largest_first(r.spec_order(), surfaces@),
    {
        let mut keys: Vec<i128> = Vec::new();
        let mut representatives: Vec<usize> = Vec::new();
        let mut assigned: Vec<bool> = Vec::new();
        let mut i: usize = 0;
        while i < surfaces.len()
            invariant
                i <= surfaces.len(),
                keys.len() == i,
                representatives.len() == i,
                assigned.len() == i,
                forall|k: int| 0 <= k < i ==> #[trigger] keys@[k] == -(surfaces@[k].nodes@.len() as int),
                forall|k: int| 0 <= k < i ==> #[trigger] representatives@[k] == k,
                forall|k: int| 0 <= k < i ==> !#[trigger] assigned@[k],
            decreases surfaces.len() - i,
        {
            keys.push(-(surfaces[i].nodes.len() as i128));
            representatives.push(i);
            assigned.push(false);
            i += 1;
        }
        let order = sorted_indices(&keys);
        assert(size_keys(keys@, surfaces@));
        Supports { representatives, assigned, order, position: 0 }
    }

    /// The next surface that no support was found for becomes a support itself.
    #[verifier::loop_isolation(false)]
    pub fn next_master(&mut self) -> (r: Option<usize>)
        requires
            old(self).well_formed(),
        ensures
            final(self).well_formed(),
            final(self).sound(),
            final(self).spec_representatives() == old(self).spec_representatives(),
            final(self).spec_order() == old(self).spec_order(),
            match r {
                Some(master) => {
                    &&& master < old(self).spec_assigned().len()
                    &&& !old(self).spec_assigned()[master as int]
                    &&& final(self).spec_assigned() == old(self).spec_assigned().update(master as int, true)
                    &&& final(self).spec_representatives()[master as int] == master
                    &&& exists|k: int|
                        0 <= k < old(self).spec_order().len() && #[trigger] old(self).spec_order()[k]
                            == master && forall|m: int|
                            0 <= m < k ==> old(self).spec_assigned()[#[trigger] old(self).spec_order()[m] as int]
                },
                None => {
                    &&& final(self).spec_assigned() == old(self).spec_assigned()
                    &&& forall|i: int|
                        0 <= i < old(self).spec_assigned().len() ==> #[trigger] old(self).spec_assigned()[i]
                },
            },
    {
        while self.position < self.order.len()
            invariant
                self.well_formed(),
                self.representatives@ == old(self).representatives@,
                self.order@ == old(self).order@,
                self.assigned@ == old(self).assigned@,
            decreases self.order.len() - self.position,
        {
            let candidate: usize = self.order[self.position];
            if !self.assigned[candidate] {
                let ghost at = self.position as int;
                let ghost before = self.assigned@;
                self.assigned.set(candidate, true);
                self.position = self.position + 1;
                proof {
                    assert(self.order@[at] == candidate);
                    assert forall|i: int| 0 <= i < self.assigned@.len() implies {
                        let r = #[trigger] self.representatives@[i];
                        &&& r < self.assigned@.len()
                        &&& self.representatives@[r as int] == r
                        &&& self.assigned@[i] ==> self.assigned@[r as int]
                        &&& !self.assigned@[i] ==> r == i
                    } by {
                        assert(old(self).spec_representatives()[i] == self.representatives@[i]);
                    }
                    assert(old(self).spec_representatives()[candidate as int] == candidate);
                    assert(self.sound());
                    assert(old(self).spec_order()[at] == candidate);
                    assert forall|m: int| 0 <= m < at implies old(self).spec_assigned()[#[trigger] old(self).spec_order()[m] as int] by {
                        assert(before[self.order@[m] as int]);
                    }
                }
                return Some(candidate);
            }
            self.position = self.position + 1;
        }
        proof {
            assert forall|i: int| 0 <= i < self.assigned@.len() implies #[trigger] self.assigned@[i] by {
                assert(self.order@.contains(i as usize));
                let k = choose|k: int| 0 <= k < self.order@.len() && self.order@[k] == i as usize;
                assert(self.assigned@[self.order@[k] as int]);
            }
        }
        None
    }

    /// Assigns to the master every surface that is connected to it through
    /// surfaces that fit its support. `compatible` tells of each surface whether
    /// it keeps to the master's plane.
    #[verifier::loop_isolation(false)]
    pub fn absorb(&mut self, surfaces: &Vec<Surface>, master: usize, compatible: &Vec<bool>)
        requires
            old(self).well_formed(),
            surfaces@.len() == old(self).spec_assigned().len(),
            compatible@.len() == surfaces@.len(),
            master < surfaces@.len(),
            old(self).spec_assigned()[master as int],
            old(self).spec_representatives()[master as int] == master,
        ensures
            final(self).well_formed(),
            final(self).sound(),
            final(self).spec_order() == old(self).spec_order(),
            final(self).spec_assigned().len() == old(self).spec_assigned().len(),
            final(self).spec_representatives().len() == old(self).spec_representatives().len(),
            forall|j: int|
                0 <= j < surfaces@.len() ==> #[trigger] assignment(
                    surfaces@,
                    compatible@,
                    master,
                    old(self).spec_representatives(),
                    old(self).spec_assigned(),
                    final(self).spec_representatives(),
                    final(self).spec_assigned(),
                    j,
                ),
    {
        let flags = reached_from(surfaces, &self.assigned, master, compatible);
        let n: usize = surfaces.len();
        let ghost assigned0 = self.assigned@;
        let ghost representatives0 = self.representatives@;
        let mut k: usize = 0;
        while k < n
            invariant
                k <= n,
                self.assigned@.len() == n,
                self.representatives@.len() == n,
                self.order@ == old(self).order@,
                self.position == old(self).position,
                forall|j: int|
                    0 <= j < n ==> #[trigger] marked(
                        self.representatives@,
                        self.assigned@,
                        representatives0,
                        assigned0,
                        flags@,
                        k as int,
                        master,
                        j,
                    ),
            decreases n - k,
        {
            let ghost reps = self.representatives@;
            let ghost marks = self.assigned@;
            if flags[k] {
                self.representatives.set(k, master);
                self.assigned.set(k, true);
            }
            proof {
                let next = k + 1;
                assert forall|j: int| 0 <= j < n implies #[trigger] marked(
                    self.representatives@,
                    self.assigned@,
                    representatives0,
                    assigned0,
                    flags@,
                    next,
                    master,
                    j,
                ) by {
                    assert(marked(reps, marks, representatives0, assigned0, flags@, k as int, master, j));
                }
            }
            k += 1;
        }
        proof {
            assert forall|j: int| 0 <= j < n implies #[trigger] marked(
                self.representatives@,
                self.assigned@,
                representatives0,
                assigned0,
                flags@,
                n as int,
                master,
                j,
            ) by {
                assert(marked(self.representatives@, self.assigned@, representatives0, assigned0, flags@, k as int, master, j));
            }
            self.absorbed_sound(*old(self), master, flags@);
            assert forall|j: int| 0 <= j < n implies #[trigger] assignment(
                surfaces@,
                compatible@,
                master,
                representatives0,
                assigned0,
                self.representatives@,
                self.assigned@,
                j,
            ) by {
                assert(marked(self.representatives@, self.assigned@, representatives0, assigned0, flags@, n as int, master, j));
            }
        }
    }

    proof fn absorbed_sound(&self, before: Supports, master: usize, flags: Seq<bool>)
        requires
            before.well_formed(),
            flags.len() == before.assigned@.len(),
            master < flags.len(),
            before.assigned@[master as int],
            before.representatives@[master as int] == master,
            !flags[master as int],
            forall|j: int| 0 <= j < flags.len() && #[trigger] flags[j] ==> !before.assigned@[j],
            self.assigned@.len() == flags.len(),
            self.representatives@.len() == flags.len(),
            self.order@ == before.order@,
            self.position == before.position,
            forall|j: int|
                0 <= j < flags.len() ==> #[trigger] marked(
                    self.representatives@,
                    self.assigned@,
                    before.representatives@,
                    before.assigned@,
                    flags,
                    flags.len() as int,
                    master,
                    j,
                ),
        ensures
            self.well_formed(),
            self.sound(),
    {
        let n = flags.len() as int;
        assert forall|i: int| 0 <= i < n implies {
            let r = #[trigger] self.representatives@[i];
            &&& r < n
            &&& self.representatives@[r as int] == r
            &&& self.assigned@[i] ==> self.assigned@[r as int]
            &&& !self.assigned@[i] ==> r == i
        } by {
            let r0 = before.representatives@[i];
            assert(before.spec_representatives()[i] == r0);
            assert(marked(self.representatives@, self.assigned@, before.representatives@, before.assigned@, flags, flags.len() as int, master, i));
            assert(marked(self.representatives@, self.assigned@, before.representatives@, before.assigned@, flags, flags.len() as int, master, master as int));
            assert(marked(self.representatives@, self.assigned@, before.representatives@, before.assigned@, flags, flags.len() as int, master, r0 as int));
            if !flags[i] {
                assert(self.representatives@[r0 as int] == r0) by {
                    if flags[r0 as int] {
                        assert(!before.assigned@[r0 as int]);
                        assert(r0 == i);
                    }
                }
            }
        }
        assert(self.sound());
        assert forall|m: int| 0 <= m < self.position implies self.assigned@[#[trigger] self.order@[m] as int] by {
            let x = self.order@[m] as int;
            assert(before.assigned@[before.order@[m] as int]);
            assert(marked(self.representatives@, self.assigned@, before.representatives@, before.assigned@, flags, flags.len() as int, master, x));
        }
    }

    pub fn representatives(&self) -> (r: &Vec<usize>)
        ensures
            r@ == self.spec_representatives(),
    {
        &self.representatives
    }
}

spec fn marked(
    representatives: Seq<usize>,
    assigned: Seq<bool>,
    representatives0: Seq<usize>,
    assigned0: Seq<bool>,
    flags: Seq<bool>,
    upto: int,
    master: usize,
    j: int,
) -> bool {
    if j < upto && flags[j] {
        representatives[j] == master && assigned[j]
    } else {
        representatives[j] == representatives0[j] && assigned[j] == assigned0[j]
    }
}

/// Which surfaces the master absorbs.
#[verifier::loop_isolation(false)]
#[verifier::rlimit(40)]
fn reached_from(surfaces: &Vec<Surface>, assigned: &Vec<bool>, master: usize, compatible: &Vec<bool>) -> (flags: Vec<
    bool,
>)
    requires
        assigned@.len() == surfaces@.len(),
        compatible@.len() == surfaces@.len(),
        master < surfaces@.len(),
    ensures
        flags@.len() == surfaces@.len(),
        forall|j: int|
            0 <= j < surfaces@.len() ==> #[trigger] flags@[j] == absorbed(
                surfaces@,
                assigned@,
                compatible@,
                master as int,
                j,
            ),
{
    let n: usize = surfaces.len();
    let mut labels: Vec<Vec<u64>> = Vec::new();
    let mut flags: Vec<bool> = Vec::new();
    let mut i: usize = 0;
    while i < n
        invariant
            i <= n,
            labels.len() == i,
            flags.len() == i,
            forall|k: int| 0 <= k < i ==> !#[trigger] flags@[k],
            forall|k: int|
                0 <= k < i ==> #[trigger] labels_of(
                    labels@[k]@,
                    surfaces@,
                    assigned@,
                    compatible@,
                    master as int,
                    k,
                ),
        decreases n - i,
    {
        let ghost before = labels@;
        let mut list: Vec<u64> = Vec::new();
        if i == master || (!assigned[i] && compatible[i]) {
            let mut k: usize = 0;
            while k < surfaces[i].nodes.len()
                invariant
                    k <= surfaces@[i as int].nodes@.len(),
                    list.len() == k,
                    forall|m: int| 0 <= m < k ==> #[trigger] list@[m] == surfaces@[i as int].nodes@[m],
                decreases surfaces@[i as int].nodes@.len() - k,
            {
                list.push(surfaces[i].nodes[k] as u64);
                k += 1;
            }
        }
        labels.push(list);
        flags.push(false);
        proof {
            assert forall|k: int| 0 <= k < i + 1 implies #[trigger] labels_of(labels@[k]@, surfaces@, assigned@, compatible@, master as int, k) by {
                if k < i {
                    assert(labels_of(before[k]@, surfaces@, assigned@, compatible@, master as int, k));
                }
            }
        }
        i += 1;
    }
    let groups = linked_groups(&labels);
    let ghost wanted = meets(surfaces@, assigned@, compatible@, master as int);
    proof {
        relabelled(groups@, labels@, surfaces@, assigned@, compatible@, master as int);
        assert(in_some_group(groups@, master as int));
    }
    let mut g: usize = 0;
    while g < groups.len() && !crate::ordering::lists_index(&groups[g], master)
        invariant
            g <= groups.len(),
            forall|h: int| 0 <= h < g ==> !(#[trigger] groups@[h])@.contains(master),
        decreases groups.len() - g,
    {
        g += 1;
    }
    proof {
        let (h, l) = choose|h: int, l: int| 0 <= h < groups@.len() && 0 <= l < groups@[h]@.len() && #[trigger] groups@[h]@[l] == master;
        assert(groups@[h]@.contains(master));
        assert(g < groups.len());
    }
    let ghost members = groups@[g as int]@;
    let mut k: usize = 0;
    while k < groups[g].len()
        invariant
            g < groups.len(),
            members == groups@[g as int]@,
            k <= members.len(),
            flags.len() == n,
            forall|j: int|
                0 <= j < n ==> #[trigger] flags@[j] == (j != master && takes_part(assigned@, compatible@, master as int, j)
                    && members.take(k as int).contains(j as usize)),
        decreases members.len() - k,
    {
        let member: usize = groups[g][k];
        assert(groups@[g as int]@[k as int] < n);
        let ghost before = flags@;
        if member != master && !assigned[member] && compatible[member] {
            flags.set(member, true);
        }
        proof {
            assert forall|j: int| 0 <= j < n implies #[trigger] flags@[j] == (j != master && takes_part(assigned@, compatible@, master as int, j)
                    && members.take(k + 1).contains(j as usize)) by {
                take_one_more(members, k as int, j as usize);
                assert(before[j] == (j != master && takes_part(assigned@, compatible@, master as int, j) && members.take(k as int).contains(j as usize)));
            }
        }
        k += 1;
    }
    proof {
        assert(members.take(k as int) =~= members);
        let at = choose|l: int| 0 <= l < members.len() && members[l] == master;
        assert forall|j: int| 0 <= j < n implies #[trigger] flags@[j] == absorbed(surfaces@, assigned@, compatible@, master as int, j) by {
            assert(in_some_group(groups@, j));
            let (h, l) = choose|h: int, l: int| 0 <= h < groups@.len() && 0 <= l < groups@[h]@.len() && #[trigger] groups@[h]@[l] == j;
            assert(connected(n as int, wanted, groups@[g as int]@[at] as int, groups@[h]@[l] as int) <==> g == h);
            if members.contains(j as usize) {
                let m = choose|m: int| 0 <= m < members.len() && members[m] == j as usize;
                assert(connected(n as int, wanted, groups@[g as int]@[at] as int, groups@[g as int]@[m] as int));
            }
        }
    }
    flags
}

proof fn relabelled(
    groups: Seq<Vec<usize>>,
    labels: Seq<Vec<u64>>,
    surfaces: Seq<Surface>,
    assigned: Seq<bool>,
    compatible: Seq<bool>,
    master: int,
)
    requires
        labels.len() == surfaces.len(),
        components_of(groups, labels.len() as int, share_label(labels)),
        forall|k: int|
            0 <= k < labels.len() ==> #[trigger] labels_of(
                labels[k]@,
                surfaces,
                assigned,
                compatible,
                master,
                k,
            ),
    ensures
        components_of(groups, surfaces.len() as int, meets(surfaces, assigned, compatible, master)),
{
    let n = surfaces.len() as int;
    let rel = share_label(labels);
    let wanted = meets(surfaces, assigned, compatible, master);
    assert forall|a: int, b: int| 0 <= a < n && 0 <= b < n implies (#[trigger] rel(a, b) <==> wanted(a, b)) by {
        labels_meet(labels, surfaces, assigned, compatible, master, a, b);
    }
    assert forall|x: int, y: int| 0 <= x < n && 0 <= y < n && #[trigger] touch(rel, x, y) implies connected(n, wanted, x, y) by {
        assert(rel(x, y) <==> wanted(x, y));
        assert(rel(y, x) <==> wanted(y, x));
        crate::connectivity::connected_step(n, wanted, x, y);
    }
    assert forall|x: int, y: int| 0 <= x < n && 0 <= y < n && #[trigger] touch(wanted, x, y) implies connected(n, rel, x, y) by {
        assert(rel(x, y) <==> wanted(x, y));
        assert(rel(y, x) <==> wanted(y, x));
        crate::connectivity::connected_step(n, rel, x, y);
    }
    crate::connectivity::components_transfer(groups, n, rel, wanted);
}

proof fn take_one_more(list: Seq<usize>, k: int, x: usize)
    requires
        0 <= k < list.len(),
    ensures
        list.take(k + 1).contains(x) <==> list.take(k).contains(x) || x == list[k],
{
    let short = list.take(k);
    let long = list.take(k + 1);
    if short.contains(x) {
        let m = choose|m: int| 0 <= m < short.len() && short[m] == x;
        assert(long[m] == x);
    }
    if long.contains(x) {
        let m = choose|m: int| 0 <= m < long.len() && long[m] == x;
        if m < k {
            assert(short[m] == x);
        }
    }
    assert(long[k] == list[k]);
}

spec fn labels_of(
    list: Seq<u64>,
    surfaces: Seq<Surface>,
    assigned: Seq<bool>,
    compatible: Seq<bool>,
    master: int,
    k: int,
) -> bool {
    if takes_part(assigned, compatible, master, k) {
        list.len() == surfaces[k].nodes@.len() && forall|m: int| 0 <= m < list.len() ==> #[trigger] list[m] == surfaces[k].nodes@[m]
    } else {
        list.len() == 0
    }
}

proof fn labels_meet(
    labels: Seq<Vec<u64>>,
    surfaces: Seq<Surface>,
    assigned: Seq<bool>,
    compatible: Seq<bool>,
    master: int,
    a: int,
    b: int,
)
    requires
        labels.len() == surfaces.len(),
        0 <= a < labels.len(),
        0 <= b < labels.len(),
        forall|k: int| 0 <= k < labels.len() ==> #[trigger] labels_of(labels[k]@, surfaces, assigned, compatible, master, k),
    ensures
        share_label(labels)(a, b) <==> meets(surfaces, assigned, compatible, master)(a, b),
{
    assert(labels_of(labels[a]@, surfaces, assigned, compatible, master, a));
    assert(labels_of(labels[b]@, surfaces, assigned, compatible, master, b));
    if share_label(labels)(a, b) {
        let x = choose|x: u64| #[trigger] labels[a]@.contains(x) && labels[b]@.contains(x);
        let i = choose|i: int| 0 <= i < labels[a]@.len() && labels[a]@[i] == x;
        let j = choose|j: int| 0 <= j < labels[b]@.len() && labels[b]@[j] == x;
        let node = surfaces[a].nodes@[i];
        assert(surfaces[b].nodes@[j] == node);
        assert(surfaces[a].nodes@.contains(node) && surfaces[b].nodes@.contains(node));
    }
    if meets(surfaces, assigned, compatible, master)(a, b) {
        let node = choose|node: usize| #[trigger] surfaces[a].nodes@.contains(node) && surfaces[b].nodes@.contains(node);
        let i = choose|i: int| 0 <= i < surfaces[a].nodes@.len() && surfaces[a].nodes@[i] == node;
        let j = choose|j: int| 0 <= j < surfaces[b].nodes@.len() && surfaces[b].nodes@[j] == node;
        assert(labels[a]@[i] == node as u64 && labels[b]@[j] == node as u64);
        assert(labels[a]@.contains(node as u64) && labels[b]@.contains(node as u64));
    }
}

/// The surfaces at a boundary node.
#[derive(Debug)]
pub struct NodeSurfaces {
    pub node: u32,
    pub surfaces: Vec<usize>,
}

pub open spec fn occurrences(nodes: Seq<usize>, ids: Seq<u32>, node: u32, upto: int, surface: usize) -> Seq<usize>
    decreases upto,
{
    if upto <= 0 {
        Seq::empty()
    } else if ids[nodes[upto - 1] as int] == node {
        occurrences(nodes, ids, node, upto - 1, surface).push(surface)
    } else {
        occurrences(nodes, ids, node, upto - 1, surface)
    }
}

/// The surfaces that hold the node, in order.
pub open spec fn surfaces_at(surfaces: Seq<Surface>, ids: Seq<u32>, node: u32, upto: int) -> Seq<usize>
    decreases upto,
{
    if upto <= 0 {
        Seq::empty()
    } else {
        surfaces_at(surfaces, ids, node, upto - 1) + occurrences(
            surfaces[upto - 1].nodes@,
            ids,
            node,
            surfaces[upto - 1].nodes@.len() as int,
            (upto - 1) as usize,
        )
    }
}

pub open spec fn nodes_known(surfaces: Seq<Surface>, count: int) -> bool {
    forall|s: int, k: int|
        0 <= s < surfaces.len() && 0 <= k < surfaces[s].nodes@.len() ==> #[trigger] surfaces[s].nodes@[k]
            < count
}

pub open spec fn owners_of(
    list: Seq<NodeSurfaces>,
    surfaces: Seq<Surface>,
    ids: Seq<u32>,
    boundary: Seq<u32>,
) -> bool {
    &&& forall|k: int|
        0 <= k < list.len() ==> {
            &&& boundary.contains((#[trigger] list[k]).node)
            &&& list[k].surfaces@ == surfaces_at(surfaces, ids, list[k].node, surfaces.len() as int)
            &&& list[k].surfaces@.len() > 0
        }
    &&& forall|k: int, l: int|
        0 <= k < l < list.len() ==> (#[trigger] list[k]).node < (#[trigger] list[l]).node
    &&& forall|b: int|
        0 <= b < boundary.len() && surfaces_at(
            surfaces,
            ids,
            #[trigger] boundary[b],
            surfaces.len() as int,
        ).len() > 0 ==> exists|k: int| 0 <= k < list.len() && (#[trigger] list[k]).node == boundary[b]
}

/// Every surface that holds a boundary node counts, also one whose own boundary
/// failed: it is never silently disconnected from valid neighbours.
#[verifier::loop_isolation(false)]
pub fn boundary_owners(surfaces: &Vec<Surface>, ids: &Vec<u32>, boundary: &Vec<u32>) -> (r: Result<
    Vec<NodeSurfaces>,
    &'static str,
>)
    requires
        ascending(boundary@),
    ensures
        match r {
            Ok(list) => nodes_known(surfaces@, ids@.len() as int) && owners_of(
                list@,
                surfaces@,
                ids@,
                boundary@,
            ),
            Err(error) => error@ == "invalid surface node"@ && !nodes_known(
                surfaces@,
                ids@.len() as int,
            ),
        },
{
    let mut lists = Lists::new();
    let mut s: usize = 0;
    while s < surfaces.len()
        invariant
            s <= surfaces.len(),
            lists.well_formed(),
            forall|t: int, k: int|
                0 <= t < s && 0 <= k < surfaces@[t].nodes@.len() ==> #[trigger] surfaces@[t].nodes@[k] < ids@.len(),
            forall|node: u32| #[trigger] lists.at(node as u64) == surfaces_at(surfaces@, ids@, node, s as int),
        decreases surfaces.len() - s,
    {
        let ghost nodes = surfaces@[s as int].nodes@;
        let mut k: usize = 0;
        while k < surfaces[s].nodes.len()
            invariant
                k <= nodes.len(),
                lists.well_formed(),
                forall|m: int| 0 <= m < k ==> #[trigger] nodes[m] < ids@.len(),
                forall|node: u32| #[trigger] lists.at(node as u64) == surfaces_at(surfaces@, ids@, node, s as int) + occurrences(nodes, ids@, node, k as int, s),
            decreases nodes.len() - k,
        {
            let index: usize = surfaces[s].nodes[k];
            if index >= ids.len() {
                assert(surfaces@[s as int].nodes@[k as int] >= ids@.len());
                return Err("invalid surface node");
            }
            let id: u32 = ids[index];
            let ghost before = lists;
            lists.push(id as u64, s);
            proof {
                assert forall|node: u32| #[trigger] lists.at(node as u64) == surfaces_at(surfaces@, ids@, node, s as int) + occurrences(nodes, ids@, node, k + 1, s) by {
                    assert(before.at(node as u64) == surfaces_at(surfaces@, ids@, node, s as int) + occurrences(nodes, ids@, node, k as int, s));
                    if node == id {
                        assert(lists.at(node as u64) =~= surfaces_at(surfaces@, ids@, node, s as int) + occurrences(nodes, ids@, node, k + 1, s));
                    }
                }
            }
            k += 1;
        }
        s += 1;
    }
    let mut list: Vec<NodeSurfaces> = Vec::new();
    let mut b: usize = 0;
    while b < boundary.len()
        invariant
            b <= boundary.len(),
            forall|k: int|
                0 <= k < list.len() ==> {
                    &&& boundary@.contains((#[trigger] list@[k]).node)
                    &&& list@[k].surfaces@ == surfaces_at(surfaces@, ids@, list@[k].node, surfaces@.len() as int)
                    &&& list@[k].surfaces@.len() > 0
                    &&& b < boundary@.len() ==> list@[k].node < boundary@[b as int]
                },
            forall|k: int, l: int|
                0 <= k < l < list.len() ==> (#[trigger] list@[k]).node < (#[trigger] list@[l]).node,
            forall|c: int|
                0 <= c < b && surfaces_at(surfaces@, ids@, #[trigger] boundary@[c], surfaces@.len() as int).len() > 0
                    ==> node_listed(list@, boundary@[c]),
        decreases boundary.len() - b,
    {
        let node: u32 = boundary[b];
        let owned = lists.get(node as u64);
        let ghost before = list@;
        if owned.len() > 0 {
            list.push(NodeSurfaces { node, surfaces: crate::ordering::copy_indices(owned) });
            assert(list@[list.len() - 1].node == node);
            assert(boundary@.contains(boundary@[b as int]));
        }
        proof {
            assert forall|x: u32| node_listed(before, x) implies #[trigger] node_listed(list@, x) by {
                let m = choose|m: int| 0 <= m < before.len() && (#[trigger] before[m]).node == x;
                assert(list@[m] == before[m]);
            }
            assert forall|k: int| 0 <= k < list.len() implies {
                &&& boundary@.contains((#[trigger] list@[k]).node)
                &&& list@[k].surfaces@ == surfaces_at(surfaces@, ids@, list@[k].node, surfaces@.len() as int)
                &&& list@[k].surfaces@.len() > 0
                &&& b + 1 < boundary@.len() ==> list@[k].node < boundary@[b + 1]
            } by {
                if b + 1 < boundary@.len() {
                    assert(boundary@[b as int] < boundary@[b + 1]);
                }
                if k < before.len() {
                    assert(list@[k] == before[k]);
                }
            }
        }
        b += 1;
    }
    proof {
        assert forall|c: int| 0 <= c < boundary@.len() && surfaces_at(surfaces@, ids@, #[trigger] boundary@[c], surfaces@.len() as int).len() > 0 implies exists|k: int|
            0 <= k < list@.len() && (#[trigger] list@[k]).node == boundary@[c] by {
            assert(node_listed(list@, boundary@[c]));
        }
    }
    Ok(list)
}

spec fn node_listed(list: Seq<NodeSurfaces>, node: u32) -> bool {
    exists|k: int| 0 <= k < list.len() && (#[trigger] list[k]).node == node
}

/// The distinct supports that meet at a node.
pub open spec fn junction_of(junction: Seq<usize>, owners: Seq<usize>, representatives: Seq<usize>) -> bool {
    &&& ascending_indices(junction)
    &&& forall|s: usize| #[trigger]
        junction.contains(s) <==> exists|k: int|
            0 <= k < owners.len() && representatives[#[trigger] owners[k] as int] == s
}

#[verifier::loop_isolation(false)]
pub fn junction(owners: &Vec<usize>, representatives: &Vec<usize>) -> (r: Vec<usize>)
    requires
        forall|k: int| 0 <= k < owners@.len() ==> #[trigger] owners@[k] < representatives@.len(),
    ensures
        junction_of(r@, owners@, representatives@),
{
    let mut all: Vec<usize> = Vec::new();
    let mut k: usize = 0;
    while k < owners.len()
        invariant
            k <= owners.len(),
            all.len() == k,
            forall|m: int| 0 <= m < k ==> #[trigger] all@[m] == representatives@[owners@[m] as int],
        decreases owners.len() - k,
    {
        all.push(representatives[owners[k]]);
        k += 1;
    }
    let ghost source = all@;
    let r = unique_indices(all);
    proof {
        assert forall|s: usize| #[trigger] r@.contains(s) <==> exists|k: int| 0 <= k < owners@.len() && representatives@[#[trigger] owners@[k] as int] == s by {
            if r@.contains(s) {
                assert(source.contains(s));
                let m = choose|m: int| 0 <= m < source.len() && source[m] == s;
                assert(representatives@[owners@[m] as int] == s);
            }
            if exists|k: int| 0 <= k < owners@.len() && representatives@[#[trigger] owners@[k] as int] == s {
                let m = choose|k: int| 0 <= k < owners@.len() && representatives@[#[trigger] owners@[k] as int] == s;
                assert(source[m] == s);
                assert(source.contains(s));
            }
        }
    }
    r
}

/// What becomes of a boundary node when its supports are intersected.
#[derive(Debug, Clone, Copy, PartialEq, Eq, Structural)]
pub enum Closure {
    Closed,
    InconsistentSupports,
    Movement,
}

pub open spec fn closure_of(
    met: bool,
    movement: Scalar,
    limit: Scalar,
    total: Scalar,
    allowance: Scalar,
) -> Closure {
    if !met {
        Closure::InconsistentSupports
    } else if limit.lt(movement) || allowance.lt(total) {
        Closure::Movement
    } else {
        Closure::Closed
    }
}

/// Judges a closed node: its supports must meet in a point, which must be
/// reached within the closure limit and, counted from the source node, within
/// the node's own allowance.
pub fn close(met: bool, movement: &Scalar, limit: &Scalar, total: &Scalar, allowance: &Scalar) -> (r:
    Closure)
    ensures
        r == closure_of(met, *movement, *limit, *total, *allowance),
{
    if !met {
        Closure::InconsistentSupports
    } else if limit.less(movement) || allowance.less(total) {
        Closure::Movement
    } else {
        Closure::Closed
    }
}

/// A surface that is asked earlier has no fewer nodes.
pub proof fn larger_surfaces_come_first(order: Seq<usize>, surfaces: Seq<Surface>, i: int, j: int)
    requires
        largest_first(order, surfaces),
        0 <= i < j < order.len(),
    ensures
        order[i] < surfaces.len() && order[j] < surfaces.len(),
        surfaces[order[i] as int].nodes@.len() >= surfaces[order[j] as int].nodes@.len(),
        surfaces[order[i] as int].nodes@.len() == surfaces[order[j] as int].nodes@.len() ==> order[i] < order[j],
{
    let keys = choose|keys: Seq<i128>| #[trigger] size_keys(keys, surfaces) && stable_order(keys, order);
    assert(crate::ordering::key_before(keys, order[i], order[j]));
    assert(keys[order[i] as int] == -(surfaces[order[i] as int].nodes@.len() as int));
    assert(keys[order[j] as int] == -(surfaces[order[j] as int].nodes@.len() as int));
}

/// A surface that does not fit the support of the master, or has one already, is not absorbed;
/// one that fits and meets the master at a node is.
pub proof fn fitting_neighbours_are_absorbed(surfaces: Seq<Surface>, assigned: Seq<bool>, compatible: Seq<bool>, master: int, j: int)
    requires
        0 <= master < surfaces.len(),
        0 <= j < surfaces.len(),
        j != master,
    ensures
        !compatible[j] || assigned[j] ==> !absorbed(surfaces, assigned, compatible, master, j),
        compatible[j] && !assigned[j] && common_node(surfaces, master, j) ==> absorbed(surfaces, assigned, compatible, master, j),
{
    let rel = meets(surfaces, assigned, compatible, master);
    if compatible[j] && !assigned[j] && common_node(surfaces, master, j) {
        assert(rel(master, j));
        crate::connectivity::connected_step(surfaces.len() as int, rel, master, j);
    }
}

proof fn occurrences_are_at(nodes: Seq<usize>, ids: Seq<u32>, node: u32, upto: int, surface: usize, s: usize)
    requires
        0 <= upto <= nodes.len(),
    ensures
        occurrences(nodes, ids, node, upto, surface).contains(s) <==> s == surface && exists|k: int|
            0 <= k < upto && ids[#[trigger] nodes[k] as int] == node,
    decreases upto,
{
    if upto > 0 {
        occurrences_are_at(nodes, ids, node, upto - 1, surface, s);
        crate::ordering::pushed_contains(occurrences(nodes, ids, node, upto - 1, surface), surface, s);
    }
}

/// A surface stands at a node exactly when it has it.
pub proof fn surfaces_stand_at_their_nodes(surfaces: Seq<Surface>, ids: Seq<u32>, node: u32, upto: int, s: usize)
    requires
        0 <= upto <= surfaces.len() <= usize::MAX,
    ensures
        surfaces_at(surfaces, ids, node, upto).contains(s) <==> s < upto && exists|k: int|
            0 <= k < surfaces[s as int].nodes@.len() && ids[#[trigger] surfaces[s as int].nodes@[k] as int] == node,
    decreases upto,
{
    if upto > 0 {
        surfaces_stand_at_their_nodes(surfaces, ids, node, upto - 1, s);
        let nodes = surfaces[upto - 1].nodes@;
        let more = occurrences(nodes, ids, node, nodes.len() as int, (upto - 1) as usize);
        let rest = surfaces_at(surfaces, ids, node, upto - 1);
        let all = surfaces_at(surfaces, ids, node, upto);
        occurrences_are_at(nodes, ids, node, nodes.len() as int, (upto - 1) as usize, s);
        assert(all == rest + more);
        if rest.contains(s) {
            let m = choose|m: int| 0 <= m < rest.len() && rest[m] == s;
            assert(all[m] == s);
        }
        if more.contains(s) {
            let m = choose|m: int| 0 <= m < more.len() && more[m] == s;
            assert(all[rest.len() + m] == s);
        }
        if all.contains(s) {
            let m = choose|m: int| 0 <= m < all.len() && all[m] == s;
            if m < rest.len() {
                assert(rest[m] == s);
            } else {
                assert(more[m - rest.len()] == s);
            }
        }
    }
}

/// A node is closed exactly when its supports meet and it moves within both limits; supports
/// that do not meet come first among the reasons.
pub proof fn nodes_close_within_their_limits(met: bool, movement: Scalar, limit: Scalar, total: Scalar, allowance: Scalar)
    ensures
        closure_of(met, movement, limit, total, allowance) == Closure::Closed <==> met && !limit.lt(movement) && !allowance.lt(total),
        closure_of(met, movement, limit, total, allowance) == Closure::InconsistentSupports <==> !met,
        closure_of(met, movement, limit, total, allowance) == Closure::Movement <==> met && (limit.lt(movement) || allowance.lt(total)),
{
}

/// The supports that meet at a node are those of its surfaces.
pub proof fn junctions_hold_the_supports(junction: Seq<usize>, owners: Seq<usize>, representatives: Seq<usize>, k: int, s: usize)
    requires
        junction_of(junction, owners, representatives),
        0 <= k < owners.len(),
    ensures
        junction.contains(representatives[owners[k] as int]),
        junction.contains(s) ==> exists|m: int| 0 <= m < owners.len() && representatives[#[trigger] owners[m] as int] == s,
{
    assert(representatives[owners[k] as int] == representatives[owners[k] as int]);
}

/// A boundary node with a surface is listed with all its surfaces, and no other node is.
pub proof fn boundary_nodes_are_listed(list: Seq<NodeSurfaces>, surfaces: Seq<Surface>, ids: Seq<u32>, boundary: Seq<u32>, b: int, s: int, k: int)
    requires
        owners_of(list, surfaces, ids, boundary),
        surfaces.len() <= usize::MAX,
        0 <= b < boundary.len(),
        0 <= s < surfaces.len(),
        0 <= k < surfaces[s].nodes@.len(),
        ids[surfaces[s].nodes@[k] as int] == boundary[b],
    ensures
        exists|m: int| 0 <= m < list.len() && (#[trigger] list[m]).node == boundary[b] && list[m].surfaces@.contains(s as usize),
{
    let n = surfaces.len() as int;
    surfaces_stand_at_their_nodes(surfaces, ids, boundary[b], n, s as usize);
    let at = surfaces_at(surfaces, ids, boundary[b], n);
    assert(ids[surfaces[s as usize as int].nodes@[k] as int] == boundary[b]);
    assert(at.contains(s as usize));
    assert(at.len() > 0);
    let m = choose|m: int| 0 <= m < list.len() && (#[trigger] list[m]).node == boundary[b];
    assert(list[m].surfaces@ == at);
}

/// Absorbing assigns exactly what is absorbed to the master, and leaves the rest.
pub proof fn absorbing_leaves_the_rest(
    surfaces: Seq<Surface>,
    compatible: Seq<bool>,
    master: usize,
    representatives: Seq<usize>,
    assigned: Seq<bool>,
    new_representatives: Seq<usize>,
    new_assigned: Seq<bool>,
    j: int,
)
    requires
        assignment(surfaces, compatible, master, representatives, assigned, new_representatives, new_assigned, j),
        0 <= j < surfaces.len(),
        j != master,
        master < surfaces.len(),
    ensures
        assigned[j] || !compatible[j] ==> new_representatives[j] == representatives[j] && new_assigned[j] == assigned[j],
        !assigned[j] && compatible[j] && common_node(surfaces, master as int, j) ==> new_representatives[j] == master && new_assigned[j],
{
    fitting_neighbours_are_absorbed(surfaces, assigned, compatible, master as int, j);
}

} // verus!
