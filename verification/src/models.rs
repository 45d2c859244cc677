//! Recovered macro elements.
use vstd::prelude::*;
use crate::input::Point;
use crate::scalar::Scalar;

pub use crate::input::{ElementData, MeshData};

verus! {

#[derive(Debug, Clone, Copy, PartialEq, Eq, Structural)]
pub enum PanelType {
    Slab,
    Wall,
    InclinedPanel,
}

/// A recovered slab or wall.
#[derive(Debug, Clone)]
pub struct MacroPanel {
    pub id: u32,
    pub panel_type: PanelType,
    pub stiffness_id: u32,
    pub plane_normal: Point,
    pub plane_d: Scalar,
    /// Contours in space: the outer perimeter first, openings after it.
    pub polygons: Vec<Vec<Point>>,
    pub filled_holes: usize,
    pub filled_hole_area: Scalar,
    pub fe_count: usize,
    pub source_element_ids: Vec<u32>,
    pub connected_panel_ids: Vec<u32>,
    pub constraint_points: Vec<Point>,
}

#[derive(Debug, Clone, Copy, PartialEq, Eq, Structural)]
pub enum BarType {
    Column,
    Beam,
    Brace,
}

/// A recovered bar.
#[derive(Debug, Clone)]
pub struct MacroBar {
    pub bar_type: BarType,
    pub stiffness_id: Option<u32>,
    pub start_point: Point,
    pub end_point: Point,
    pub length: Scalar,
    pub start_node_id: u32,
    pub end_node_id: u32,
    pub source_element_ids: Vec<u32>,
    pub source_node_ids: Vec<u32>,
    pub start_panel_ids: Vec<u32>,
    pub end_panel_ids: Vec<u32>,
    pub constraints: Vec<BarConstraint>,
    pub property_spans: Vec<BarPropertySpan>,
}

/// Meshing and attachment data on a line with two ends; `t` lies in [0, 1].
#[derive(Debug, Clone)]
pub struct BarConstraint {
    pub t: Scalar,
    pub source_node_id: Option<u32>,
    pub kinds: Vec<String>,
    pub panel_ids: Vec<u32>,
}

#[derive(Debug, Clone)]
pub struct BarPropertySpan {
    pub start_t: Scalar,
    pub end_t: Scalar,
    pub stiffness_id: u32,
    pub source_element_ids: Vec<u32>,
}

pub open spec fn panels_of_type(types: Seq<PanelType>, wanted: PanelType, upto: int) -> nat
    decreases upto,
{
    if upto <= 0 {
        0
    } else if types[upto - 1] == wanted {
        panels_of_type(types, wanted, upto - 1) + 1
    } else {
        panels_of_type(types, wanted, upto - 1)
    }
}

pub fn count_panels(types: &Vec<PanelType>, wanted: PanelType) -> (r: usize)
    ensures
        r == panels_of_type(types@, wanted, types@.len() as int),
{
    let mut r: usize = 0;
    let mut k: usize = 0;
    while k < types.len()
        invariant
            k <= types@.len(),
            r <= k,
            r == panels_of_type(types@, wanted, k as int),
        decreases types@.len() - k,
    {
        if types[k] == wanted {
            r += 1;
        }
        k += 1;
    }
    r
}

pub open spec fn bars_of_type(types: Seq<BarType>, wanted: BarType, upto: int) -> nat
    decreases upto,
{
    if upto <= 0 {
        0
    } else if types[upto - 1] == wanted {
        bars_of_type(types, wanted, upto - 1) + 1
    } else {
        bars_of_type(types, wanted, upto - 1)
    }
}

pub fn count_bars(types: &Vec<BarType>, wanted: BarType) -> (r: usize)
    ensures
        r == bars_of_type(types@, wanted, types@.len() as int),
{
    let mut r: usize = 0;
    let mut k: usize = 0;
    while k < types.len()
        invariant
            k <= types@.len(),
            r <= k,
            r == bars_of_type(types@, wanted, k as int),
        decreases types@.len() - k,
    {
        if types[k] == wanted {
            r += 1;
        }
        k += 1;
    }
    r
}

/// Every panel is counted under one type.
pub proof fn panel_counts_add_up(types: Seq<PanelType>, upto: int)
    requires
        0 <= upto <= types.len(),
    ensures
        panels_of_type(types, PanelType::Slab, upto) + panels_of_type(types, PanelType::Wall, upto)
            + panels_of_type(types, PanelType::InclinedPanel, upto) == upto,
    decreases upto,
{
    if upto > 0 {
        panel_counts_add_up(types, upto - 1);
    }
}

/// Every bar is counted under one type.
pub proof fn bar_counts_add_up(types: Seq<BarType>, upto: int)
    requires
        0 <= upto <= types.len(),
    ensures
        bars_of_type(types, BarType::Column, upto) + bars_of_type(types, BarType::Beam, upto)
            + bars_of_type(types, BarType::Brace, upto) == upto,
    decreases upto,
{
    if upto > 0 {
        bar_counts_add_up(types, upto - 1);
    }
}

/// The count of a type is the number of panels of that type.
pub proof fn panels_are_counted(types: Seq<PanelType>, wanted: PanelType, upto: int)
    requires
        0 <= upto <= types.len(),
    ensures
        panels_of_type(types, wanted, upto) == types.take(upto).filter(|t: PanelType| t == wanted).len(),
    decreases upto,
{
    reveal(Seq::filter);
    if upto > 0 {
        panels_are_counted(types, wanted, upto - 1);
        assert(types.take(upto).drop_last() =~= types.take(upto - 1));
    }
}

/// The count of a type is the number of bars of that type.
pub proof fn bars_are_counted(types: Seq<BarType>, wanted: BarType, upto: int)
    requires
        0 <= upto <= types.len(),
    ensures
        bars_of_type(types, wanted, upto) == types.take(upto).filter(|t: BarType| t == wanted).len(),
    decreases upto,
{
    reveal(Seq::filter);
    if upto > 0 {
        bars_are_counted(types, wanted, upto - 1);
        assert(types.take(upto).drop_last() =~= types.take(upto - 1));
    }
}

} // verus!
