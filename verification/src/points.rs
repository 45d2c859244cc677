//! Positions by node number.
use vstd::prelude::*;
use crate::input::Point;
use crate::scalar::Scalar;

verus! {

broadcast use vstd::std_specs::btree::group_btree_axioms;

#[derive(Debug)]
pub struct PointTable {
    entries: std::collections::BTreeMap<u32, Point>,
}

impl View for PointTable {
    type V = Map<u32, Point>;

    closed spec fn view(&self) -> Map<u32, Point> {
        self.entries@
    }
}

impl PointTable {
    pub fn new() -> (r: PointTable)
        ensures
            r@ == Map::<u32, Point>::empty(),
    {
        PointTable { entries: std::collections::BTreeMap::new() }
    }

    pub fn get(&self, node: u32) -> (r: Option<Point>)
        ensures
            r == if self@.dom().contains(node) {
                Some(self@[node])
            } else {
                None
            },
    {
        match self.entries.get(&node) {
            Some(point) => Some(*point),
            None => None,
        }
    }

    pub fn insert(&mut self, node: u32, point: Point)
        ensures
            final(self)@ == old(self)@.insert(node, point),
    {
        self.entries.insert(node, point);
    }
}

/// The coordinates compare equal; no value does so with a NaN.
pub open spec fn same_position(a: Point, b: Point) -> bool {
    &&& same_value(a[0], b[0])
    &&& same_value(a[1], b[1])
    &&& same_value(a[2], b[2])
}

pub open spec fn same_value(a: Scalar, b: Scalar) -> bool {
    a.le(b) && b.le(a)
}

pub fn is_same_value(a: &Scalar, b: &Scalar) -> (r: bool)
    ensures
        r == same_value(*a, *b),
{
    a.at_most(b) && b.at_most(a)
}

pub fn is_same_position(a: &Point, b: &Point) -> (r: bool)
    ensures
        r == same_position(*a, *b),
{
    is_same_value(&a[0], &b[0]) && is_same_value(&a[1], &b[1]) && is_same_value(&a[2], &b[2])
}

/// Two points are at the same position exactly when no coordinate is less in one than in the
/// other; both zeros count as one.
pub proof fn positions_agree_in_all_coordinates(a: Point, b: Point)
    requires
        forall|d: int| 0 <= d < 3 ==> !(#[trigger] a[d]).nan() && !b[d].nan(),
    ensures
        same_position(a, b) <==> forall|d: int| 0 <= d < 3 ==> !(#[trigger] a[d]).lt(b[d]) && !b[d].lt(a[d]),
        same_position(a, a),
        same_position(a, b) == same_position(b, a),
{
    assert(!a[0].nan() && !a[1].nan() && !a[2].nan());
    if same_position(a, b) {
        assert forall|d: int| 0 <= d < 3 implies !(#[trigger] a[d]).lt(b[d]) && !b[d].lt(a[d]) by {
            assert(d == 0 || d == 1 || d == 2);
        }
    }
    if forall|d: int| 0 <= d < 3 ==> !(#[trigger] a[d]).lt(b[d]) && !b[d].lt(a[d]) {
        assert(!a[0].lt(b[0]) && !a[1].lt(b[1]) && !a[2].lt(b[2]));
    }
}

} // verus!
