//! Bars from chains of bar elements.
use vstd::prelude::*;
use crate::geometry::topology::{all_at_most, are_at_most};
use crate::geometry::utils::{name_of, NodeNames};
use crate::input::{ElementData, Point};
use crate::models::{BarType, MacroBar};
use crate::ordering::{ascending_indices, sorted_indices, stable_order};
use crate::registry::Lists;
use crate::scalar::Scalar;
use crate::table::HashTable;

verus! {

/// 0.95
pub const STEEP: u64 = 0x3fee_6666_6666_6666;

/// 0.05
pub const LEVEL: u64 = 0x3fa9_9999_9999_999a;

pub open spec fn bar_type_of(rise: Scalar) -> BarType {
    if (Scalar { bits: STEEP }).lt(rise) {
        BarType::Column
    } else if rise.lt(Scalar { bits: LEVEL }) {
        BarType::Beam
    } else {
        BarType::Brace
    }
}

/// The type of a bar by the vertical share of its direction.
pub fn classify_bar(rise: &Scalar) -> (r: BarType)
    ensures
        r == bar_type_of(*rise),
        r == BarType::Beam <==> rise.lt(Scalar { bits: LEVEL }),
        r == BarType::Column <==> (Scalar { bits: STEEP }).lt(*rise),
        r == BarType::Brace <==> !rise.lt(Scalar { bits: LEVEL }) && !(Scalar { bits: STEEP }).lt(*rise),
{
    if (Scalar { bits: STEEP }).less(rise) {
        BarType::Column
    } else if rise.less(&Scalar { bits: LEVEL }) {
        BarType::Beam
    } else {
        BarType::Brace
    }
}

/// 1e-6
pub const SHORTEST: u64 = 0x3eb0_c6f7_a0b5_ed8d;

/// 0.999
pub const ALIGNED: u64 = 0x3fef_f7ce_d916_872b;

/// A bar element without length starts no bar.
pub fn is_degenerate(length: &Scalar) -> (r: bool)
    ensures
        r == length.lt(Scalar { bits: SHORTEST }),
{
    length.less(&Scalar { bits: SHORTEST })
}

/// What is measured of a link against the direction of a walk.
#[derive(Debug)]
pub struct Step {
    pub length: Scalar,
    /// Cosine of the angle between them.
    pub alignment: Scalar,
}

/// The link has a length and goes straight on.
pub open spec fn straight_on(step: Step) -> bool {
    (Scalar { bits: SHORTEST }).lt(step.length) && (Scalar { bits: ALIGNED }).lt(step.alignment)
}

/// Which of the links a walk follows: the first that goes straight on.
pub fn next_step(steps: &Vec<Step>) -> (r: Option<usize>)
    ensures
        match r {
            Some(k) => {
                &&& k < steps@.len()
                &&& straight_on(steps@[k as int])
                &&& forall|m: int| 0 <= m < k ==> !straight_on(#[trigger] steps@[m])
            },
            None => forall|m: int| 0 <= m < steps@.len() ==> !straight_on(#[trigger] steps@[m]),
        },
{
    let mut k: usize = 0;
    while k < steps.len()
        invariant
            k <= steps@.len(),
            forall|m: int| 0 <= m < k ==> !straight_on(#[trigger] steps@[m]),
        decreases steps@.len() - k,
    {
        let step = &steps[k];
        if (Scalar { bits: SHORTEST }).less(&step.length) && (Scalar { bits: ALIGNED }).less(&step.alignment) {
            return Some(k);
        }
        k += 1;
    }
    None
}

/// What is measured of a stretch of a chain between two cuts.
#[derive(Debug)]
pub struct StretchMeasure {
    /// From its first node to its last.
    pub length: Scalar,
    /// Distances of its nodes to the straight line between those.
    pub deviations: Vec<Scalar>,
}

pub open spec fn straight_stretch(measure: StretchMeasure, tolerance: Scalar) -> bool {
    (Scalar { bits: SHORTEST }).lt(measure.length) && all_at_most(measure.deviations@, tolerance)
}

pub fn is_straight(measure: &StretchMeasure, tolerance: &Scalar) -> (r: bool)
    ensures
        r == straight_stretch(*measure, *tolerance),
{
    (Scalar { bits: SHORTEST }).less(&measure.length) && are_at_most(&measure.deviations, tolerance)
}

/// A bar element as seen from one of its ends.
#[derive(Debug, Clone, Copy, PartialEq, Eq, Structural)]
pub struct Link {
    /// The other end.
    pub node: u32,
    pub element: u32,
    pub stiffness: u32,
}

/// The ends of a bar element by their names.
pub open spec fn ends_of(element: ElementData, names: Map<u32, u32>) -> (u32, u32) {
    (name_of(names, element.nodes@[0]), name_of(names, element.nodes@[1]))
}

/// A bar element between two nodes.
pub open spec fn spans(element: ElementData, names: Map<u32, u32>) -> bool {
    element.bar() && ends_of(element, names).0 != ends_of(element, names).1
}

/// The links at a node, in the order of the elements.
pub open spec fn links_at(elements: Seq<ElementData>, names: Map<u32, u32>, node: u32, upto: int) -> Seq<Link>
    decreases upto,
{
    if upto <= 0 {
        Seq::empty()
    } else {
        let rest = links_at(elements, names, node, upto - 1);
        let element = elements[upto - 1];
        let ends = ends_of(element, names);
        if spans(element, names) && ends.0 == node {
            rest.push(Link { node: ends.1, element: element.id, stiffness: element.stiff_id })
        } else if spans(element, names) && ends.1 == node {
            rest.push(Link { node: ends.0, element: element.id, stiffness: element.stiff_id })
        } else {
            rest
        }
    }
}

/// A node with an element of its own: a support or a spring.
pub open spec fn guarded(elements: Seq<ElementData>, names: Map<u32, u32>, node: u32) -> bool {
    exists|e: int|
        0 <= e < elements.len() && (#[trigger] elements[e]).nodes@.len() == 1 && name_of(
            names,
            elements[e].nodes@[0],
        ) == node
}

spec fn listed(links: Seq<Link>, list: Seq<usize>) -> Seq<Link> {
    Seq::new(list.len(), |k: int| links[list[k] as int])
}

/// Recovers bars. Elements that were taken are not taken again.
#[derive(Debug)]
pub struct BarReconstructor {
    table: Lists,
    links: Vec<Link>,
    protected: HashTable,
    visited: HashTable,
}

/// A walk along a chain of elements.
#[derive(Debug)]
pub struct Trace {
    pub stiffness: u32,
    pub current: u32,
    pub previous: u32,
    pub nodes: Vec<u32>,
    pub elements: Vec<u32>,
}

/// The links that may be followed: straight through a node with two links only,
/// not back, not along an element that was taken, and with the same stiffness.
pub open spec fn open_links(links: Seq<Link>, taken: Set<u32>, previous: u32, stiffness: u32, upto: int) -> Seq<Link>
    decreases upto,
{
    if upto <= 0 {
        Seq::empty()
    } else {
        let rest = open_links(links, taken, previous, stiffness, upto - 1);
        let link = links[upto - 1];
        if link.node != previous && !taken.contains(link.element) && link.stiffness == stiffness {
            rest.push(link)
        } else {
            rest
        }
    }
}

impl BarReconstructor {
    pub closed spec fn well_formed(&self) -> bool {
        &&& self.table.well_formed()
        &&& forall|x: u64, k: int|
            0 <= k < self.table.at(x).len() ==> #[trigger] self.table.at(x)[k] < self.links@.len()
    }

    /// The links at a node.
    pub closed spec fn at(&self, node: u32) -> Seq<Link> {
        listed(self.links@, self.table.at(node as u64))
    }

    pub closed spec fn is_protected(&self, node: u32) -> bool {
        self.protected@.dom().contains(node as u64)
    }

    /// The elements that were taken.
    pub closed spec fn taken(&self) -> Set<u32> {
        Set::new(|id: u32| self.visited@.dom().contains(id as u64))
    }

    pub open spec fn describes(&self, elements: Seq<ElementData>, names: Map<u32, u32>) -> bool {
        &&& forall|node: u32| #[trigger]
            self.at(node) == links_at(elements, names, node, elements.len() as int)
        &&& forall|node: u32| #[trigger] self.is_protected(node) <==> guarded(elements, names, node)
    }

    pub open spec fn options_of(&self, trace: Trace) -> Seq<Link> {
        let links = self.at(trace.current);
        if links.len() != 2 || self.is_protected(trace.current) {
            Seq::empty()
        } else {
            open_links(links, self.taken(), trace.previous, trace.stiffness, 2)
        }
    }

    /// Reads which elements meet at which nodes.
    #[verifier::rlimit(40)]
    #[verifier::loop_isolation(false)]
    pub fn of_elements(elements: &Vec<ElementData>, names: &NodeNames) -> (r: BarReconstructor)
        requires
            2 * elements@.len() <= usize::MAX,
        ensures
            r.well_formed(),
            r.describes(elements@, names@),
            r.taken() == Set::<u32>::empty(),
    {
        let mut table = Lists::new();
        let mut links: Vec<Link> = Vec::new();
        let mut protected = HashTable::new();
        let mut e: usize = 0;
        assert forall|node: u32| listed(links@, #[trigger] table.at(node as u64)) == links_at(elements@, names@, node, 0) by {
            assert(listed(links@, table.at(node as u64)) =~= Seq::<Link>::empty());
        }
        while e < elements.len()
            invariant
                e <= elements@.len(),
                table.well_formed(),
                links@.len() <= 2 * e,
                forall|x: u64, k: int| 0 <= k < table.at(x).len() ==> #[trigger] table.at(x)[k] < links@.len(),
                forall|node: u32| listed(links@, #[trigger] table.at(node as u64)) == links_at(elements@, names@, node, e as int),
                forall|node: u32| #[trigger] protected@.dom().contains(node as u64) ==> guarded(elements@, names@, node),
                forall|d: int| 0 <= d < e && (#[trigger] elements@[d]).nodes@.len() == 1 ==> protected@.dom().contains(name_of(names@, elements@[d].nodes@[0]) as u64),
            decreases elements@.len() - e,
        {
            let element = &elements[e];
            let ghost old_links = links@;
            let ghost old_table = table;
            if element.is_bar() {
                let a: u32 = names.canonical(element.nodes[0]);
                let b: u32 = names.canonical(element.nodes[1]);
                if a != b {
                    let forth = Link { node: b, element: element.id, stiffness: element.stiff_id };
                    let back = Link { node: a, element: element.id, stiffness: element.stiff_id };
                    let first: usize = links.len();
                    links.push(forth);
                    links.push(back);
                    table.push(a as u64, first);
                    table.push(b as u64, first + 1);
                    proof {
                        assert forall|node: u32| listed(links@, #[trigger] table.at(node as u64)) == links_at(elements@, names@, node, e + 1) by {
                            let rest = listed(old_links, old_table.at(node as u64));
                            assert(rest == links_at(elements@, names@, node, e as int));
                            if node == a {
                                assert(table.at(node as u64) == old_table.at(node as u64).push(first));
                                assert(listed(links@, table.at(node as u64)) =~= rest.push(forth));
                            } else if node == b {
                                assert(table.at(node as u64) == old_table.at(node as u64).push((first + 1) as usize));
                                assert(listed(links@, table.at(node as u64)) =~= rest.push(back));
                            } else {
                                assert(table.at(node as u64) == old_table.at(node as u64));
                                assert(listed(links@, table.at(node as u64)) =~= rest);
                            }
                        }
                    }
                } else {
                    assert forall|node: u32| listed(links@, #[trigger] table.at(node as u64)) == links_at(elements@, names@, node, e + 1) by {}
                }
            } else {
                assert forall|node: u32| listed(links@, #[trigger] table.at(node as u64)) == links_at(elements@, names@, node, e + 1) by {}
            }
            if element.nodes.len() == 1 {
                let node: u32 = names.canonical(element.nodes[0]);
                protected.insert(node as u64, e);
                proof {
                    assert(elements@[e as int].nodes@.len() == 1);
                    assert(guarded(elements@, names@, node));
                }
            }
            e += 1;
        }
        let r = BarReconstructor { table, links, protected, visited: HashTable::new() };
        proof {
            assert forall|node: u32| #[trigger] r.is_protected(node) <==> guarded(elements@, names@, node) by {
                if guarded(elements@, names@, node) {
                    let d = choose|d: int| 0 <= d < elements@.len() && (#[trigger] elements@[d]).nodes@.len() == 1 && name_of(names@, elements@[d].nodes@[0]) == node;
                    assert(protected@.dom().contains(name_of(names@, elements@[d].nodes@[0]) as u64));
                }
            }
            assert forall|node: u32| #[trigger] r.at(node) == links_at(elements@, names@, node, elements@.len() as int) by {
                assert(listed(links@, table.at(node as u64)) == links_at(elements@, names@, node, e as int));
            }
            assert(r.taken() =~= Set::<u32>::empty());
        }
        r
    }

    pub fn is_taken(&self, element: u32) -> (r: bool)
        ensures
            r == self.taken().contains(element),
    {
        self.visited.contains_key(element as u64)
    }

    /// Takes an element.
    pub fn mark(&mut self, element: u32)
        requires
            old(self).well_formed(),
        ensures
            final(self).well_formed(),
            final(self).taken() == old(self).taken().insert(element),
            forall|node: u32| #[trigger] final(self).at(node) == old(self).at(node),
            forall|node: u32| #[trigger] final(self).is_protected(node) == old(self).is_protected(node),
    {
        self.visited.insert(element as u64, 0);
        assert(self.taken() =~= old(self).taken().insert(element));
    }

    /// The links that a walk may follow next. Branches, supports and springs end it.
    pub fn options(&self, trace: &Trace) -> (r: Vec<Link>)
        requires
            self.well_formed(),
        ensures
            r@ == self.options_of(*trace),
    {
        let list = self.table.get(trace.current as u64);
        let mut r: Vec<Link> = Vec::new();
        if list.len() != 2 || self.protected.contains_key(trace.current as u64) {
            assert(list@.len() == 2 ==> self.is_protected(trace.current));
            return r;
        }
        assert(!self.is_protected(trace.current));
        let ghost links = self.at(trace.current);
        assert(open_links(links, self.taken(), trace.previous, trace.stiffness, 0) =~= Seq::<Link>::empty());
        let mut k: usize = 0;
        while k < 2
            invariant
                self.well_formed(),
                k <= 2,
                list@ == self.table.at(trace.current as u64),
                list@.len() == 2,
                links == self.at(trace.current),
                r@ == open_links(links, self.taken(), trace.previous, trace.stiffness, k as int),
            decreases 2 - k,
        {
            assert(self.table.at(trace.current as u64)[k as int] < self.links@.len());
            let link = self.links[list[k]];
            assert(links[k as int] == link);
            if link.node != trace.previous && !self.is_taken(link.element) && link.stiffness == trace.stiffness {
                r.push(link);
            }
            k += 1;
        }
        r
    }

    /// Follows a link.
    pub fn follow(&mut self, trace: &mut Trace, link: Link)
        requires
            old(self).well_formed(),
            old(self).options_of(*old(trace)).contains(link),
        ensures
            final(self).well_formed(),
            final(self).taken() == old(self).taken().insert(link.element),
            forall|node: u32| #[trigger] final(self).at(node) == old(self).at(node),
            forall|node: u32| #[trigger] final(self).is_protected(node) == old(self).is_protected(node),
            final(trace).stiffness == old(trace).stiffness,
            final(trace).current == link.node,
            final(trace).previous == old(trace).current,
            final(trace).nodes@ == old(trace).nodes@.push(link.node),
            final(trace).elements@ == old(trace).elements@.push(link.element),
    {
        self.mark(link.element);
        trace.nodes.push(link.node);
        trace.elements.push(link.element);
        trace.previous = trace.current;
        trace.current = link.node;
    }
}

proof fn open_links_new(links: Seq<Link>, taken: Set<u32>, previous: u32, stiffness: u32, upto: int, link: Link)
    requires
        open_links(links, taken, previous, stiffness, upto).contains(link),
    ensures
        !taken.contains(link.element),
        link.stiffness == stiffness,
        link.node != previous,
    decreases upto,
{
    let all = open_links(links, taken, previous, stiffness, upto);
    if upto > 0 {
        let rest = open_links(links, taken, previous, stiffness, upto - 1);
        let k = choose|k: int| 0 <= k < all.len() && all[k] == link;
        if k < rest.len() {
            assert(rest[k] == link);
            assert(rest.contains(link));
            open_links_new(links, taken, previous, stiffness, upto - 1, link);
        }
    }
}

/// A walk takes every element once: what it may follow was not taken yet and has
/// the stiffness it began with.
pub proof fn walks_take_new_elements(bars: BarReconstructor, trace: Trace, link: Link)
    requires
        bars.options_of(trace).contains(link),
    ensures
        !bars.taken().contains(link.element),
        link.stiffness == trace.stiffness,
{
    open_links_new(bars.at(trace.current), bars.taken(), trace.previous, trace.stiffness, 2, link);
}

/// A branch or a support ends every walk.
pub proof fn walks_end_at_branches(bars: BarReconstructor, trace: Trace)
    requires
        bars.at(trace.current).len() != 2 || bars.is_protected(trace.current),
    ensures
        bars.options_of(trace).len() == 0,
{
}

/// The walk back, the element it began with, and the walk forth, as one chain.
pub open spec fn whole_chain(backward: Seq<u32>, middle: Seq<u32>, forward: Seq<u32>) -> Seq<u32> {
    backward.reverse() + middle + forward
}

fn join_chain(backward: &Vec<u32>, middle: &Vec<u32>, forward: &Vec<u32>) -> (r: Vec<u32>)
    ensures
        r@ == whole_chain(backward@, middle@, forward@),
{
    let mut r: Vec<u32> = Vec::new();
    let mut k: usize = backward.len();
    while k > 0
        invariant
            k <= backward@.len(),
            r@ =~= backward@.reverse().take(backward@.len() - k),
        decreases k,
    {
        k -= 1;
        r.push(backward[k]);
    }
    assert(r@ =~= backward@.reverse());
    crate::ordering::append_ids(&mut r, middle);
    crate::ordering::append_ids(&mut r, forward);
    assert(r@ =~= whole_chain(backward@, middle@, forward@));
    r
}

/// A chain of elements: its nodes and the elements between them.
#[derive(Debug)]
pub struct Chain {
    pub nodes: Vec<u32>,
    pub elements: Vec<u32>,
}

/// Joins the walks from both ends of an element.
pub fn chain_of(start: u32, end: u32, element: u32, backward: &Trace, forward: &Trace) -> (r: Chain)
    ensures
        r.nodes@ == whole_chain(backward.nodes@, seq![start, end], forward.nodes@),
        r.elements@ == whole_chain(backward.elements@, seq![element], forward.elements@),
{
    let mut ends: Vec<u32> = Vec::new();
    ends.push(start);
    ends.push(end);
    assert(ends@ =~= seq![start, end]);
    let mut own: Vec<u32> = Vec::new();
    own.push(element);
    assert(own@ =~= seq![element]);
    Chain {
        nodes: join_chain(&backward.nodes, &ends, &forward.nodes),
        elements: join_chain(&backward.elements, &own, &forward.elements),
    }
}

/// Inner places at which a column is cut, up to a place.
pub open spec fn cuts_before(at_level: Seq<bool>, column: bool, upto: int) -> Seq<usize>
    decreases upto,
{
    if upto <= 1 {
        seq![0usize]
    } else {
        let rest = cuts_before(at_level, column, upto - 1);
        if column && at_level[upto - 1] {
            rest.push((upto - 1) as usize)
        } else {
            rest
        }
    }
}

pub open spec fn cuts_of(at_level: Seq<bool>, column: bool) -> Seq<usize> {
    cuts_before(at_level, column, at_level.len() - 1).push((at_level.len() - 1) as usize)
}

/// Where a chain is cut: at its ends, and a column at the levels of slabs.
/// `at_level` says which nodes lie at one.
pub fn cut_places(at_level: &Vec<bool>, column: bool) -> (r: Vec<usize>)
    requires
        at_level@.len() >= 2,
    ensures
        r@ == cuts_of(at_level@, column),
{
    let mut r: Vec<usize> = Vec::new();
    r.push(0);
    assert(r@ =~= seq![0usize]);
    let mut k: usize = 1;
    while k < at_level.len() - 1
        invariant
            at_level@.len() >= 2,
            1 <= k <= at_level@.len() - 1,
            r@ == cuts_before(at_level@, column, k as int),
        decreases at_level@.len() - k,
    {
        if column && at_level[k] {
            r.push(k);
        }
        k += 1;
    }
    r.push(at_level.len() - 1);
    r
}

/// A part of a chain from one node to another.
#[derive(Debug, Clone, Copy, PartialEq, Eq, Structural)]
pub struct Piece {
    pub low: usize,
    pub high: usize,
}

pub open spec fn single_pieces(low: usize, upto: int) -> Seq<Piece>
    decreases upto - low,
{
    if upto <= low {
        Seq::empty()
    } else {
        single_pieces(low, upto - 1).push(
            Piece { low: (upto - 1) as usize, high: upto as usize },
        )
    }
}

/// A straight stretch is one piece, any other falls into its elements.
pub open spec fn pieces_before(cuts: Seq<usize>, straight: Seq<bool>, upto: int) -> Seq<Piece>
    decreases upto,
{
    if upto <= 0 {
        Seq::empty()
    } else {
        pieces_before(cuts, straight, upto - 1) + if straight[upto - 1] {
            seq![Piece { low: cuts[upto - 1], high: cuts[upto] }]
        } else {
            single_pieces(cuts[upto - 1], cuts[upto] as int)
        }
    }
}

/// The pieces of a chain. `straight` says which stretches between cuts are.
#[verifier::loop_isolation(false)]
pub fn pieces(cuts: &Vec<usize>, straight: &Vec<bool>) -> (r: Vec<Piece>)
    requires
        cuts@.len() == straight@.len() + 1,
    ensures
        r@ == pieces_before(cuts@, straight@, straight@.len() as int),
{
    let mut r: Vec<Piece> = Vec::new();
    let mut k: usize = 0;
    while k < straight.len()
        invariant
            k <= straight@.len(),
            r@ == pieces_before(cuts@, straight@, k as int),
        decreases straight@.len() - k,
    {
        let low: usize = cuts[k];
        let high: usize = cuts[k + 1];
        let ghost before = r@;
        if straight[k] {
            r.push(Piece { low, high });
            assert(r@ =~= pieces_before(cuts@, straight@, k + 1));
        } else {
            let mut i: usize = low;
            assert(r@ =~= before + single_pieces(low, low as int));
            while i < high
                invariant
                    low <= i,
                    i <= high || i == low,
                    r@ == before + single_pieces(low, i as int),
                decreases high - i,
            {
                r.push(Piece { low: i, high: i + 1 });
                assert(r@ =~= before + single_pieces(low, i + 1));
                i += 1;
            }
            if high < low {
                assert(single_pieces(low, high as int) =~= Seq::<Piece>::empty());
            }
            assert(r@ =~= pieces_before(cuts@, straight@, k + 1));
        }
        k += 1;
    }
    r
}

pub open spec fn number_keys(keys: Seq<i128>, ids: Seq<u32>) -> bool {
    &&& keys.len() == ids.len()
    &&& forall|k: int| 0 <= k < ids.len() ==> #[trigger] keys[k] == ids[k]
}

/// The same numbers, ascending.
pub open spec fn in_order(r: Seq<u32>, ids: Seq<u32>) -> bool {
    exists|keys: Seq<i128>, order: Seq<usize>|
        number_keys(keys, ids) && #[trigger] stable_order(keys, order) && r.len() == ids.len() && forall|k: int|
            0 <= k < r.len() ==> #[trigger] r[k] == ids[order[k] as int]
}

/// Puts numbers in ascending order.
#[verifier::loop_isolation(false)]
pub fn sort_ids(ids: &Vec<u32>) -> (r: Vec<u32>)
    ensures
        in_order(r@, ids@),
{
    let mut keys: Vec<i128> = Vec::new();
    let mut k: usize = 0;
    while k < ids.len()
        invariant
            k <= ids@.len(),
            keys@.len() == k,
            forall|m: int| 0 <= m < k ==> #[trigger] keys@[m] == ids@[m],
        decreases ids@.len() - k,
    {
        keys.push(ids[k] as i128);
        k += 1;
    }
    let order = sorted_indices(&keys);
    let mut r: Vec<u32> = Vec::new();
    let mut k: usize = 0;
    while k < order.len()
        invariant
            k <= order@.len(),
            r@.len() == k,
            forall|m: int| 0 <= m < k ==> #[trigger] r@[m] == ids@[order@[m] as int],
        decreases order@.len() - k,
    {
        r.push(ids[order[k]]);
        k += 1;
    }
    assert(number_keys(keys@, ids@) && stable_order(keys@, order@));
    r
}

fn part_of(ids: &Vec<u32>, low: usize, high: usize) -> (r: Vec<u32>)
    requires
        low <= high <= ids@.len(),
    ensures
        r@ == ids@.subrange(low as int, high as int),
{
    let mut r: Vec<u32> = Vec::new();
    let mut k: usize = low;
    while k < high
        invariant
            low <= k <= high <= ids@.len(),
            r@ =~= ids@.subrange(low as int, k as int),
        decreases high - k,
    {
        r.push(ids[k]);
        k += 1;
    }
    r
}

/// Where the ends of a piece lie.
#[derive(Debug, Clone, Copy)]
pub struct PieceMeasure {
    pub start: Point,
    pub end: Point,
    pub length: Scalar,
    /// Vertical share of its direction.
    pub rise: Scalar,
}

/// The bar that a piece of a chain makes.
pub fn bar_of_piece(chain: &Chain, piece: &Piece, stiffness: u32, measure: &PieceMeasure) -> (r: MacroBar)
    requires
        piece.low < piece.high < chain.nodes@.len(),
        chain.nodes@.len() == chain.elements@.len() + 1,
    ensures
        r.bar_type == bar_type_of(measure.rise),
        r.stiffness_id == Some(stiffness),
        r.start_point == measure.start,
        r.end_point == measure.end,
        r.length == measure.length,
        r.start_node_id == chain.nodes@[piece.low as int],
        r.end_node_id == chain.nodes@[piece.high as int],
        in_order(r.source_element_ids@, chain.elements@.subrange(piece.low as int, piece.high as int)),
        r.source_node_ids@ == chain.nodes@.subrange(piece.low as int, piece.high + 1),
        r.start_panel_ids@.len() == 0,
        r.end_panel_ids@.len() == 0,
        r.constraints@.len() == 0,
        r.property_spans@.len() == 0,
{
    let count: usize = chain.nodes.len();
    assert(piece.high < count);
    let own = part_of(&chain.elements, piece.low, piece.high);
    MacroBar {
        bar_type: classify_bar(&measure.rise),
        stiffness_id: Some(stiffness),
        start_point: measure.start,
        end_point: measure.end,
        length: measure.length,
        start_node_id: chain.nodes[piece.low],
        end_node_id: chain.nodes[piece.high],
        source_element_ids: sort_ids(&own),
        source_node_ids: part_of(&chain.nodes, piece.low, piece.high + 1),
        start_panel_ids: Vec::new(),
        end_panel_ids: Vec::new(),
        constraints: Vec::new(),
        property_spans: Vec::new(),
    }
}

/// An element that a bar may begin with: not taken yet, with both ends placed and a
/// length. `length` is that between its ends, where both are placed.
pub open spec fn startable(element: ElementData, length: Option<Scalar>, taken: Set<u32>) -> bool {
    &&& element.bar()
    &&& !taken.contains(element.id)
    &&& length is Some
    &&& !length->0.lt(Scalar { bits: SHORTEST })
}

impl BarReconstructor {
    /// The next element that a bar may begin with.
    pub fn next_start(&self, elements: &Vec<ElementData>, lengths: &Vec<Option<Scalar>>, from: usize) -> (r: Option<
        usize,
    >)
        requires
            lengths@.len() == elements@.len(),
        ensures
            match r {
                Some(i) => {
                    &&& from <= i < elements@.len()
                    &&& startable(elements@[i as int], lengths@[i as int], self.taken())
                    &&& forall|j: int|
                        from <= j < i ==> !startable(#[trigger] elements@[j], lengths@[j], self.taken())
                },
                None => forall|j: int|
                    from <= j < elements@.len() ==> !startable(#[trigger] elements@[j], lengths@[j], self.taken()),
            },
    {
        let mut i: usize = from;
        while i < elements.len()
            invariant
                lengths@.len() == elements@.len(),
                from <= i,
                forall|j: int|
                    from <= j < i && j < elements@.len() ==> !startable(#[trigger] elements@[j], lengths@[j], self.taken()),
            decreases elements@.len() - i,
        {
            let placed: bool = match &lengths[i] {
                Some(length) => !is_degenerate(length),
                None => false,
            };
            if placed && elements[i].is_bar() && !self.is_taken(elements[i].id) {
                return Some(i);
            }
            i += 1;
        }
        None
    }
}

/// A walk took these elements: new ones, each once.
pub open spec fn walked(before: Set<u32>, after: Set<u32>, elements: Seq<u32>) -> bool {
    &&& elements.no_duplicates()
    &&& forall|k: int| 0 <= k < elements.len() ==> !before.contains(#[trigger] elements[k])
    &&& forall|id: u32| #[trigger] after.contains(id) <==> before.contains(id) || elements.contains(id)
}

/// Following a link continues a walk.
pub proof fn walk_goes_on(before: Set<u32>, bars: BarReconstructor, trace: Trace, link: Link)
    requires
        walked(before, bars.taken(), trace.elements@),
        bars.options_of(trace).contains(link),
    ensures
        walked(before, bars.taken().insert(link.element), trace.elements@.push(link.element)),
{
    walks_take_new_elements(bars, trace, link);
    let elements = trace.elements@;
    let longer = elements.push(link.element);
    assert(!before.contains(link.element));
    assert(!elements.contains(link.element));
    assert forall|i: int, j: int| 0 <= i < longer.len() && 0 <= j < longer.len() && i != j implies longer[i] != longer[j] by {
        if i < elements.len() && j < elements.len() {
            assert(elements[i] != elements[j]);
        } else if i < elements.len() {
            assert(elements.contains(elements[i]));
        } else {
            assert(elements.contains(elements[j]));
        }
    }
    assert forall|id: u32| #[trigger] bars.taken().insert(link.element).contains(id) <==> before.contains(id) || longer.contains(id) by {
        if elements.contains(id) {
            let k = choose|k: int| 0 <= k < elements.len() && elements[k] == id;
            assert(longer[k] == id);
        }
        if longer.contains(id) {
            let k = choose|k: int| 0 <= k < longer.len() && longer[k] == id;
            if k < elements.len() {
                assert(elements[k] == id);
            }
        }
        assert(longer[elements.len() as int] == link.element);
    }
}

/// The walks from both ends of a new element make a chain of new elements.
pub proof fn chain_is_new(
    before: Set<u32>,
    between: Set<u32>,
    after: Set<u32>,
    element: u32,
    forward: Seq<u32>,
    backward: Seq<u32>,
)
    requires
        !before.contains(element),
        walked(before.insert(element), between, forward),
        walked(between, after, backward),
    ensures
        walked(before, after, whole_chain(backward, seq![element], forward)),
{
    let chain = whole_chain(backward, seq![element], forward);
    let b = backward.len();
    assert forall|k: int| 0 <= k < chain.len() implies chain[k] == if k < b {
        backward[b - 1 - k]
    } else if k == b {
        element
    } else {
        forward[k - b - 1]
    } by {}
    assert forall|k: int| 0 <= k < forward.len() implies between.contains(#[trigger] forward[k]) by {
        assert(forward.contains(forward[k]));
    }
    assert(between.contains(element));
    assert forall|k: int| 0 <= k < chain.len() implies !before.contains(#[trigger] chain[k]) by {
        if k < b {
            assert(!between.contains(backward[b - 1 - k]));
        } else if k > b {
            assert(!before.insert(element).contains(forward[k - b - 1]));
        }
    }
    assert forall|i: int, j: int| 0 <= i < j < chain.len() implies chain[i] != chain[j] by {
        if j < b {
            assert(backward[b - 1 - i] != backward[b - 1 - j]);
        } else if i < b {
            assert(!between.contains(backward[b - 1 - i]));
        } else if i == b {
            assert(!before.insert(element).contains(forward[j - b - 1]));
        } else {
            assert(forward[i - b - 1] != forward[j - b - 1]);
        }
    }
    assert forall|id: u32| #[trigger] after.contains(id) <==> before.contains(id) || chain.contains(id) by {
        if backward.contains(id) {
            let k = choose|k: int| 0 <= k < backward.len() && backward[k] == id;
            assert(chain[b - 1 - k] == id);
        }
        if forward.contains(id) {
            let k = choose|k: int| 0 <= k < forward.len() && forward[k] == id;
            assert(chain[b + 1 + k] == id);
        }
        if id == element {
            assert(chain[b as int] == id);
        }
        if chain.contains(id) {
            let k = choose|k: int| 0 <= k < chain.len() && chain[k] == id;
            if k < b {
                assert(backward[b - 1 - k] == id);
                assert(backward.contains(id));
            } else if k > b {
                assert(forward[k - b - 1] == id);
                assert(forward.contains(id));
            }
        }
        assert(between.contains(id) <==> before.insert(element).contains(id) || forward.contains(id));
    }
}

/// The elements of a chain are handed out to pieces.
pub open spec fn cut_into(parts: Seq<Piece>, count: int) -> bool {
    exists|at_level: Seq<bool>, column: bool, straight: Seq<bool>| #[trigger]
        cut_as(parts, count, at_level, column, straight)
}

pub open spec fn cut_as(parts: Seq<Piece>, count: int, at_level: Seq<bool>, column: bool, straight: Seq<bool>) -> bool {
    &&& at_level.len() == count + 1
    &&& straight.len() + 1 == cuts_of(at_level, column).len()
    &&& parts == pieces_before(cuts_of(at_level, column), straight, straight.len() as int)
}

pub open spec fn in_piece(parts: Seq<Piece>, p: int, k: int) -> bool {
    0 <= p < parts.len() && parts[p].low <= k < parts[p].high
}

proof fn cuts_ascend(at_level: Seq<bool>, column: bool, upto: int)
    requires
        1 <= upto <= usize::MAX,
    ensures
        ascending_indices(cuts_before(at_level, column, upto)),
        cuts_before(at_level, column, upto).len() > 0,
        cuts_before(at_level, column, upto)[0] == 0,
        forall|k: int|
            0 <= k < cuts_before(at_level, column, upto).len() ==> #[trigger] cuts_before(at_level, column, upto)[k]
                < upto,
    decreases upto,
{
    if upto > 1 {
        cuts_ascend(at_level, column, upto - 1);
    }
}

proof fn single_listed(low: usize, upto: int)
    requires
        low <= upto <= usize::MAX,
    ensures
        single_pieces(low, upto).len() == upto - low,
        forall|k: int|
            0 <= k < upto - low ==> #[trigger] single_pieces(low, upto)[k] == (Piece {
                low: (low + k) as usize,
                high: (low + k + 1) as usize,
            }),
    decreases upto - low,
{
    if low < upto {
        single_listed(low, upto - 1);
    }
}

proof fn pieces_cover(cuts: Seq<usize>, straight: Seq<bool>, upto: int, k: int)
    requires
        ascending_indices(cuts),
        0 <= upto < cuts.len(),
        upto <= straight.len(),
    ensures
        forall|p: int|
            0 <= p < pieces_before(cuts, straight, upto).len() ==> cuts[0] <= (#[trigger] pieces_before(cuts, straight, upto)[p]).low
                && pieces_before(cuts, straight, upto)[p].low < pieces_before(cuts, straight, upto)[p].high
                && pieces_before(cuts, straight, upto)[p].high <= cuts[upto],
        cuts[0] <= k < cuts[upto] ==> exists|p: int| #[trigger] in_piece(pieces_before(cuts, straight, upto), p, k),
        forall|p: int, q: int| #[trigger]
            in_piece(pieces_before(cuts, straight, upto), p, k) && #[trigger] in_piece(
                pieces_before(cuts, straight, upto),
                q,
                k,
            ) ==> p == q,
    decreases upto,
{
    if upto > 0 {
        pieces_cover(cuts, straight, upto - 1, k);
        let before = pieces_before(cuts, straight, upto - 1);
        let all = pieces_before(cuts, straight, upto);
        let (low, high) = (cuts[upto - 1], cuts[upto]);
        assert(low < high);
        assert(cuts[0] <= low) by {
            if upto > 1 {
                assert(cuts[0] < cuts[upto - 1]);
            }
        }
        single_listed(low, high as int);
        let more = if straight[upto - 1] {
            seq![Piece { low, high }]
        } else {
            single_pieces(low, high as int)
        };
        assert(all == before + more);
        assert forall|p: int| 0 <= p < all.len() implies cuts[0] <= (#[trigger] all[p]).low && all[p].low < all[p].high && all[p].high <= high by {
            if p < before.len() {
                assert(all[p] == before[p]);
            } else {
                assert(all[p] == more[p - before.len()]);
            }
        }
        if low <= k < high {
            if straight[upto - 1] {
                assert(in_piece(all, before.len() as int, k));
            } else {
                let p = before.len() + k - low;
                assert(all[p] == more[k - low]);
                assert(in_piece(all, p, k));
            }
        } else if cuts[0] <= k < low {
            let p = choose|p: int| #[trigger] in_piece(before, p, k);
            assert(all[p] == before[p]);
            assert(in_piece(all, p, k));
        }
        assert forall|p: int, q: int| #[trigger] in_piece(all, p, k) && #[trigger] in_piece(all, q, k) implies p == q by {
            if p < before.len() {
                assert(all[p] == before[p]);
                assert(in_piece(before, p, k));
                assert(k < low);
            } else {
                assert(all[p] == more[p - before.len()]);
            }
            if q < before.len() {
                assert(all[q] == before[q]);
                assert(in_piece(before, q, k));
                assert(k < low);
            } else {
                assert(all[q] == more[q - before.len()]);
            }
        }
    }
}

/// The element stands at a place of a chain, and a piece of that chain holds the place.
pub open spec fn in_bar(chains: Seq<Seq<u32>>, parts: Seq<Seq<Piece>>, id: u32, c: int, k: int, p: int) -> bool {
    &&& 0 <= c < chains.len()
    &&& 0 <= k < chains[c].len()
    &&& chains[c][k] == id
    &&& in_piece(parts[c], p, k)
}

pub open spec fn in_one_bar(chains: Seq<Seq<u32>>, parts: Seq<Seq<Piece>>, id: u32) -> bool {
    exists|c: int, k: int, p: int| #[trigger]
        in_bar(chains, parts, id, c, k, p) && forall|d: int, l: int, q: int| #[trigger]
            in_bar(chains, parts, id, d, l, q) ==> d == c && l == k && q == p
}

/// The chains that a run found one after the other, with the elements taken before
/// each of them and in the end.
pub open spec fn run_of(taken: Seq<Set<u32>>, chains: Seq<Seq<u32>>, parts: Seq<Seq<Piece>>) -> bool {
    &&& taken.len() == chains.len() + 1
    &&& parts.len() == chains.len()
    &&& forall|id: u32| !(#[trigger] taken[0].contains(id))
    &&& forall|c: int|
        0 <= c < chains.len() ==> walked(taken[c], taken[c + 1], #[trigger] chains[c]) && chains[c].len() < usize::MAX
            && cut_into(parts[c], chains[c].len() as int)
}

proof fn taken_by(taken: Seq<Set<u32>>, chains: Seq<Seq<u32>>, parts: Seq<Seq<Piece>>, id: u32, upto: int)
    requires
        run_of(taken, chains, parts),
        0 <= upto <= chains.len(),
    ensures
        taken[upto].contains(id) <==> exists|c: int| 0 <= c < upto && (#[trigger] chains[c]).contains(id),
    decreases upto,
{
    if upto > 0 {
        taken_by(taken, chains, parts, id, upto - 1);
        assert(walked(taken[upto - 1], taken[upto - 1 + 1], chains[upto - 1]));
    }
}

/// Every bar element with two placed ends and a length between them ends in exactly
/// one bar, once no further bar can begin.
pub proof fn every_element_is_in_one_bar(
    elements: Seq<ElementData>,
    lengths: Seq<Option<Scalar>>,
    taken: Seq<Set<u32>>,
    chains: Seq<Seq<u32>>,
    parts: Seq<Seq<Piece>>,
    i: int,
)
    requires
        run_of(taken, chains, parts),
        forall|j: int| 0 <= j < elements.len() ==> !startable(#[trigger] elements[j], lengths[j], taken.last()),
        0 <= i < elements.len(),
        elements[i].bar(),
        lengths[i] is Some,
        !lengths[i]->0.lt(Scalar { bits: SHORTEST }),
    ensures
        in_one_bar(chains, parts, elements[i].id),
{
    let id = elements[i].id;
    let n = chains.len() as int;
    assert(!startable(elements[i], lengths[i], taken.last()));
    taken_by(taken, chains, parts, id, n);
    let c = choose|c: int| 0 <= c < n && (#[trigger] chains[c]).contains(id);
    let k = choose|k: int| 0 <= k < chains[c].len() && chains[c][k] == id;
    assert(walked(taken[c], taken[c + 1], chains[c]));
    let count = chains[c].len() as int;
    let (at_level, column, straight) = choose|at_level: Seq<bool>, column: bool, straight: Seq<bool>| #[trigger]
        cut_as(parts[c], count, at_level, column, straight);
    let cuts = cuts_of(at_level, column);
    cuts_ascend(at_level, column, count);
    assert(ascending_indices(cuts));
    pieces_cover(cuts, straight, straight.len() as int, k);
    assert(cuts[0] == 0 && cuts[straight.len() as int] == count);
    let p = choose|p: int| #[trigger] in_piece(parts[c], p, k);
    assert(in_bar(chains, parts, id, c, k, p));
    assert forall|d: int, l: int, q: int| #[trigger] in_bar(chains, parts, id, d, l, q) implies d == c && l == k && q == p by {
        assert(chains[d].contains(id)) by {
            assert(chains[d][l] == id);
        }
        let (first, second) = if d < c { (d, c) } else { (c, d) };
        if first < second {
            taken_by(taken, chains, parts, id, second);
            assert(chains[first].contains(id));
            assert(taken[second].contains(id));
            assert(walked(taken[second], taken[second + 1], chains[second]));
            let at = choose|at: int| 0 <= at < chains[second].len() && chains[second][at] == id;
            assert(!taken[second].contains(chains[second][at]));
        }
    }
}

/// The steepness of a bar settles what it is. Below a twentieth it is a beam, above nineteen
/// twentieths a column, and between them a brace.
pub proof fn steepness_settles_the_bar(rise: Scalar)
    ensures
        bar_type_of(rise) == BarType::Beam <==> rise.lt(Scalar { bits: 0x3fa9_9999_9999_999a }),
        bar_type_of(rise) == BarType::Column <==> (Scalar { bits: 0x3fee_6666_6666_6666 }).lt(rise),
        bar_type_of(rise) == BarType::Brace <==> !rise.lt(Scalar { bits: 0x3fa9_9999_9999_999a }) && !(Scalar {
            bits: 0x3fee_6666_6666_6666,
        }).lt(rise),
{
}

/// A level bar is a beam and an upright one a column. Of two bars the steeper one is never
/// nearer to a beam.
pub proof fn level_bars_are_beams(flat: Scalar, steep: Scalar)
    requires
        flat.le(steep),
    ensures
        bar_type_of(Scalar::spec_zero()) == BarType::Beam,
        bar_type_of(Scalar::spec_one()) == BarType::Column,
        bar_type_of(steep) == BarType::Beam ==> bar_type_of(flat) == BarType::Beam,
        bar_type_of(flat) == BarType::Column ==> bar_type_of(steep) == BarType::Column,
{
}

/// A walk goes on along a link with a length whose direction differs by less than the
/// cosine 0.999 says, and along no other.
pub proof fn walks_go_straight_on(step: Step)
    ensures
        straight_on(step) <==> (Scalar { bits: 0x3eb0_c6f7_a0b5_ed8d }).lt(step.length) && (Scalar {
            bits: 0x3fef_f7ce_d916_872b,
        }).lt(step.alignment),
{
}

/// A stretch is straight only where no node is off its line by more than the tolerance.
pub proof fn straight_stretches_keep_to_the_line(measure: StretchMeasure, tolerance: Scalar, k: int)
    requires
        straight_stretch(measure, tolerance),
        0 <= k < measure.deviations@.len(),
    ensures
        measure.deviations@[k].le(tolerance),
        (Scalar { bits: 0x3eb0_c6f7_a0b5_ed8d }).lt(measure.length),
{
}

proof fn links_of_elements(elements: Seq<ElementData>, names: Map<u32, u32>, node: u32, upto: int, link: Link)
    requires
        0 <= upto <= elements.len(),
    ensures
        links_at(elements, names, node, upto).contains(link) <==> exists|e: int|
            0 <= e < upto && #[trigger] joins(elements[e], names, node, link),
    decreases upto,
{
    if upto > 0 {
        links_of_elements(elements, names, node, upto - 1, link);
        let rest = links_at(elements, names, node, upto - 1);
        let all = links_at(elements, names, node, upto);
        let element = elements[upto - 1];
        if rest.contains(link) {
            let m = choose|m: int| 0 <= m < rest.len() && rest[m] == link;
            assert(all[m] == link);
        }
        if all.contains(link) {
            let m = choose|m: int| 0 <= m < all.len() && all[m] == link;
            if m < rest.len() {
                assert(rest[m] == link);
            } else {
                assert(joins(element, names, node, link));
            }
        }
        if joins(element, names, node, link) {
            assert(all.last() == link);
        }
    }
}

/// The bar element leads from the node to the other end of the link.
pub open spec fn joins(element: ElementData, names: Map<u32, u32>, node: u32, link: Link) -> bool {
    let a = name_of(names, element.nodes@[0]);
    let b = name_of(names, element.nodes@[1]);
    &&& element.elem_type == 10 && element.nodes@.len() == 2 && a != b
    &&& link.element == element.id && link.stiffness == element.stiff_id
    &&& (node == a && link.node == b) || (node == b && link.node == a)
}

/// A link is listed at a node exactly when a bar element leads from there to its other end,
/// with the number and the stiffness of that element.
pub proof fn links_are_bar_elements(bars: BarReconstructor, elements: Seq<ElementData>, names: Map<u32, u32>, node: u32, link: Link)
    requires
        bars.describes(elements, names),
    ensures
        bars.at(node).contains(link) <==> exists|e: int| 0 <= e < elements.len() && #[trigger] joins(elements[e], names, node, link),
{
    links_of_elements(elements, names, node, elements.len() as int, link);
    assert(bars.at(node) == links_at(elements, names, node, elements.len() as int));
}

/// Links go both ways: what is seen from one end is seen from the other.
pub proof fn links_go_both_ways(bars: BarReconstructor, elements: Seq<ElementData>, names: Map<u32, u32>, node: u32, link: Link)
    requires
        bars.describes(elements, names),
        bars.at(node).contains(link),
    ensures
        link.node != node,
        bars.at(link.node).contains((Link { node, ..link })),
{
    links_are_bar_elements(bars, elements, names, node, link);
    let e = choose|e: int| 0 <= e < elements.len() && #[trigger] joins(elements[e], names, node, link);
    assert(joins(elements[e], names, link.node, Link { node, ..link }));
    links_are_bar_elements(bars, elements, names, link.node, Link { node, ..link });
}

proof fn open_links_listed(links: Seq<Link>, taken: Set<u32>, previous: u32, stiffness: u32, upto: int, link: Link)
    requires
        0 <= upto <= links.len(),
    ensures
        open_links(links, taken, previous, stiffness, upto).contains(link) <==> links.take(upto).contains(link)
            && link.node != previous && !taken.contains(link.element) && link.stiffness == stiffness,
    decreases upto,
{
    if upto > 0 {
        open_links_listed(links, taken, previous, stiffness, upto - 1, link);
        let rest = open_links(links, taken, previous, stiffness, upto - 1);
        let all = open_links(links, taken, previous, stiffness, upto);
        let (short, long) = (links.take(upto - 1), links.take(upto));
        assert(long =~= short.push(links[upto - 1]));
        if rest.contains(link) {
            let m = choose|m: int| 0 <= m < rest.len() && rest[m] == link;
            assert(all[m] == link);
        }
        if all.contains(link) && !rest.contains(link) {
            let m = choose|m: int| 0 <= m < all.len() && all[m] == link;
            assert(m == rest.len());
        }
        if short.contains(link) {
            let m = choose|m: int| 0 <= m < short.len() && short[m] == link;
            assert(long[m] == link);
        }
        if long.contains(link) && !short.contains(link) {
            let m = choose|m: int| 0 <= m < long.len() && long[m] == link;
            assert(m == upto - 1);
            if link.node != previous && !taken.contains(link.element) && link.stiffness == stiffness {
                assert(all.last() == link);
            }
        }
        if all.len() > rest.len() {
            assert(long.last() == links[upto - 1]);
        }
    }
}

/// Where two links meet at a node without support, a walk may follow exactly those that do
/// not lead back, were not taken and keep its stiffness. Elsewhere it may follow none.
pub proof fn walks_may_follow(bars: BarReconstructor, trace: Trace, link: Link)
    ensures
        bars.options_of(trace).contains(link) <==> bars.at(trace.current).len() == 2 && !bars.is_protected(trace.current)
            && bars.at(trace.current).contains(link) && link.node != trace.previous && !bars.taken().contains(link.element)
            && link.stiffness == trace.stiffness,
{
    let links = bars.at(trace.current);
    if links.len() == 2 {
        open_links_listed(links, bars.taken(), trace.previous, trace.stiffness, 2, link);
        assert(links.take(2) =~= links);
    }
}

/// The walk: from the node it began at, each element leads on to the next node.
pub open spec fn leads_on(joined: spec_fn(u32, u32, u32) -> bool, begin: u32, nodes: Seq<u32>, elements: Seq<u32>) -> bool {
    &&& nodes.len() == elements.len()
    &&& forall|k: int|
        0 <= k < elements.len() ==> joined(
            #[trigger] elements[k],
            if k == 0 {
                begin
            } else {
                nodes[k - 1]
            },
            nodes[k],
        )
}

/// A chain runs on without a gap: each of its elements joins the node at its own place with
/// the next one. `joined` says which element lies between which nodes.
pub proof fn chains_have_no_gap(
    joined: spec_fn(u32, u32, u32) -> bool,
    start: u32,
    end: u32,
    element: u32,
    back_nodes: Seq<u32>,
    back_elements: Seq<u32>,
    on_nodes: Seq<u32>,
    on_elements: Seq<u32>,
)
    requires
        forall|e: u32, a: u32, b: u32| #[trigger] joined(e, a, b) ==> joined(e, b, a),
        joined(element, start, end),
        leads_on(joined, start, back_nodes, back_elements),
        leads_on(joined, end, on_nodes, on_elements),
    ensures
        ({
            let nodes = whole_chain(back_nodes, seq![start, end], on_nodes);
            let elements = whole_chain(back_elements, seq![element], on_elements);
            &&& nodes.len() == elements.len() + 1
            &&& elements.len() == back_elements.len() + 1 + on_elements.len()
            &&& forall|k: int| 0 <= k < elements.len() ==> joined(#[trigger] elements[k], nodes[k], nodes[k + 1])
        }),
{
    let nodes = whole_chain(back_nodes, seq![start, end], on_nodes);
    let elements = whole_chain(back_elements, seq![element], on_elements);
    let n = back_elements.len() as int;
    assert forall|k: int| 0 <= k < elements.len() implies joined(#[trigger] elements[k], nodes[k], nodes[k + 1]) by {
        if k < n {
            let m = n - 1 - k;
            assert(elements[k] == back_elements[m]);
            assert(nodes[k] == back_nodes[m]);
            assert(nodes[k + 1] == if m == 0 {
                start
            } else {
                back_nodes[m - 1]
            });
            assert(joined(back_elements[m], nodes[k + 1], nodes[k]));
        } else if k == n {
            assert(elements[k] == element && nodes[k] == start && nodes[k + 1] == end);
        } else {
            let m = k - n - 1;
            assert(elements[k] == on_elements[m]);
            assert(nodes[k + 1] == on_nodes[m]);
            assert(nodes[k] == if m == 0 {
                end
            } else {
                on_nodes[m - 1]
            });
        }
    }
}

proof fn inner_cuts(at_level: Seq<bool>, column: bool, upto: int, k: usize)
    requires
        1 <= upto <= at_level.len() <= usize::MAX,
    ensures
        cuts_before(at_level, column, upto).contains(k) <==> k < upto && (k == 0 || (column && at_level[k as int])),
        ascending_indices(cuts_before(at_level, column, upto)),
        forall|m: int| 0 <= m < cuts_before(at_level, column, upto).len() ==> #[trigger] cuts_before(at_level, column, upto)[m] < upto,
    decreases upto,
{
    let all = cuts_before(at_level, column, upto);
    if upto > 1 {
        inner_cuts(at_level, column, upto - 1, k);
        let rest = cuts_before(at_level, column, upto - 1);
        if rest.contains(k) {
            let m = choose|m: int| 0 <= m < rest.len() && rest[m] == k;
            assert(all[m] == k);
        }
        if all.contains(k) {
            let m = choose|m: int| 0 <= m < all.len() && all[m] == k;
            if m < rest.len() {
                assert(rest[m] == k);
            }
        }
        if all.len() > rest.len() {
            assert(all.last() == (upto - 1) as usize);
        }
    } else {
        assert(all[0] == 0);
    }
}

/// A chain is cut at both its ends, a column also at every level of a slab that it passes,
/// and nowhere else.
pub proof fn columns_are_cut_at_levels(at_level: Seq<bool>, column: bool, k: usize)
    requires
        2 <= at_level.len() <= usize::MAX,
    ensures
        cuts_of(at_level, column).contains(k) <==> k < at_level.len() && (k == 0 || k == at_level.len() - 1 || (column
            && at_level[k as int])),
        ascending_indices(cuts_of(at_level, column)),
{
    let n = at_level.len() as int;
    inner_cuts(at_level, column, n - 1, k);
    let rest = cuts_before(at_level, column, n - 1);
    let all = cuts_of(at_level, column);
    assert(all.last() == (n - 1) as usize);
    if rest.contains(k) {
        let m = choose|m: int| 0 <= m < rest.len() && rest[m] == k;
        assert(all[m] == k);
    }
    if all.contains(k) {
        let m = choose|m: int| 0 <= m < all.len() && all[m] == k;
        if m < rest.len() {
            assert(rest[m] == k);
        }
    }
}

proof fn single_pieces_run(low: usize, upto: int)
    requires
        low <= upto <= usize::MAX,
    ensures
        single_pieces(low, upto).len() == upto - low,
        forall|k: int|
            0 <= k < upto - low ==> (#[trigger] single_pieces(low, upto)[k]).low == low + k && single_pieces(low, upto)[k].high
                == low + k + 1,
    decreases upto - low,
{
    if upto > low {
        single_pieces_run(low, upto - 1);
    }
}

/// Between two cuts a straight stretch makes one piece from cut to cut; any other makes one
/// piece of each of its elements, in order.
pub proof fn stretches_are_cut_into_pieces(cuts: Seq<usize>, straight: Seq<bool>, upto: int)
    requires
        0 < upto <= straight.len(),
        straight.len() < cuts.len(),
        cuts[upto - 1] < cuts[upto],
    ensures
        ({
            let before = pieces_before(cuts, straight, upto - 1);
            let all = pieces_before(cuts, straight, upto);
            let count = if straight[upto - 1] {
                1
            } else {
                cuts[upto] - cuts[upto - 1]
            };
            &&& all.len() == before.len() + count
            &&& all.take(before.len() as int) == before
            &&& all[before.len() as int].low == cuts[upto - 1]
            &&& all.last().high == cuts[upto]
            &&& !straight[upto - 1] ==> forall|k: int|
                0 <= k < count ==> (#[trigger] all[before.len() + k]).low == cuts[upto - 1] + k && all[before.len() + k].high
                    == cuts[upto - 1] + k + 1
        }),
{
    single_pieces_run(cuts[upto - 1], cuts[upto] as int);
    let before = pieces_before(cuts, straight, upto - 1);
    let all = pieces_before(cuts, straight, upto);
    assert(all.take(before.len() as int) =~= before);
    if !straight[upto - 1] {
        let added = single_pieces(cuts[upto - 1], cuts[upto] as int);
        assert forall|k: int| 0 <= k < cuts[upto] - cuts[upto - 1] implies (#[trigger] all[before.len() + k]).low == cuts[upto - 1] + k
            && all[before.len() + k].high == cuts[upto - 1] + k + 1 by {
            assert(all[before.len() + k] == added[k]);
        }
        assert(all.last() == added.last());
    }
}

/// Putting numbers in order only moves them: they ascend, and each occurs as often as
/// before.
pub proof fn ordering_only_moves(r: Seq<u32>, ids: Seq<u32>)
    requires
        in_order(r, ids),
        ids.len() <= usize::MAX,
    ensures
        r.len() == ids.len(),
        forall|i: int, j: int| 0 <= i < j < r.len() ==> r[i] <= r[j],
        forall|x: u32| r.contains(x) <==> ids.contains(x),
        ids.no_duplicates() ==> crate::ordering::ascending(r),
{
    let (keys, order) = choose|keys: Seq<i128>, order: Seq<usize>|
        number_keys(keys, ids) && #[trigger] stable_order(keys, order) && r.len() == ids.len() && forall|k: int|
            0 <= k < r.len() ==> #[trigger] r[k] == ids[order[k] as int];
    assert forall|i: int, j: int| 0 <= i < j < r.len() implies r[i] <= r[j] && order[i] != order[j] by {
        assert(crate::ordering::key_before(keys, order[i], order[j]));
        assert(keys[order[i] as int] == ids[order[i] as int]);
        assert(keys[order[j] as int] == ids[order[j] as int]);
    }
    assert forall|x: u32| r.contains(x) <==> ids.contains(x) by {
        if r.contains(x) {
            let k = choose|k: int| 0 <= k < r.len() && r[k] == x;
            assert(ids[order[k] as int] == x);
        }
        if ids.contains(x) {
            let m = choose|m: int| 0 <= m < ids.len() && ids[m] == x;
            let u = m as usize;
            assert(order.contains(u));
            let k = choose|k: int| 0 <= k < order.len() && order[k] == u;
            assert(r[k] == x);
        }
    }
}

} // verus!
