//! CAD drawings in DXF: bars as lines, contours as closed polylines in space.
use vstd::prelude::*;
use vstd::string::StringExecFns;
use crate::models::{BarType, PanelType};
use crate::text::{append_signed, signed};

verus! {

pub struct DxfExporter;

/// A bar with its coordinates in writing: start, then end.
#[derive(Debug)]
pub struct DxfBar {
    pub bar_type: BarType,
    pub coordinates: [String; 6],
}

/// A panel with the coordinates of its contours in writing.
#[derive(Debug)]
pub struct DxfPanel {
    pub panel_type: PanelType,
    pub polygons: Vec<Vec<[String; 3]>>,
}

pub open spec fn bar_layer(bar_type: BarType) -> Seq<char> {
    match bar_type {
        BarType::Column => "COLUMNS"@,
        BarType::Beam => "BEAMS"@,
        BarType::Brace => "BRACES"@,
    }
}

pub open spec fn panel_layer(panel_type: PanelType) -> Seq<char> {
    match panel_type {
        PanelType::Slab => "SLABS"@,
        PanelType::Wall => "WALLS"@,
        PanelType::InclinedPanel => "INCLINED"@,
    }
}

fn bar_layer_name(bar_type: BarType) -> (r: &'static str)
    ensures
        r@ == bar_layer(bar_type),
{
    match bar_type {
        BarType::Column => "COLUMNS",
        BarType::Beam => "BEAMS",
        BarType::Brace => "BRACES",
    }
}

fn panel_layer_name(panel_type: PanelType) -> (r: &'static str)
    ensures
        r@ == panel_layer(panel_type),
{
    match panel_type {
        PanelType::Slab => "SLABS",
        PanelType::Wall => "WALLS",
        PanelType::InclinedPanel => "INCLINED",
    }
}

/// One layer of the table of layers.
pub open spec fn layer_text(name: Seq<char>, color: int) -> Seq<char> {
    "0\nLAYER\n2\n"@ + name + "\n70\n0\n62\n"@ + signed(color) + "\n6\nCONTINUOUS\n"@
}

pub open spec fn line_text(bar: DxfBar) -> Seq<char> {
    "0\nLINE\n8\n"@ + bar_layer(bar.bar_type) + "\n10\n"@ + bar.coordinates[0]@ + "\n20\n"@
        + bar.coordinates[1]@ + "\n30\n"@ + bar.coordinates[2]@ + "\n11\n"@ + bar.coordinates[3]@
        + "\n21\n"@ + bar.coordinates[4]@ + "\n31\n"@ + bar.coordinates[5]@ + "\n"@
}

pub open spec fn vertex_text(layer: Seq<char>, point: [String; 3]) -> Seq<char> {
    "0\nVERTEX\n8\n"@ + layer + "\n10\n"@ + point[0]@ + "\n20\n"@ + point[1]@ + "\n30\n"@ + point[2]@
        + "\n70\n32\n"@
}

pub open spec fn vertices_text(layer: Seq<char>, ring: Seq<[String; 3]>, upto: int) -> Seq<char>
    decreases upto,
{
    if upto <= 0 {
        Seq::empty()
    } else {
        vertices_text(layer, ring, upto - 1) + vertex_text(layer, ring[upto - 1])
    }
}

/// A closed polyline; fewer than three points make none.
pub open spec fn polyline_text(layer: Seq<char>, ring: Seq<[String; 3]>) -> Seq<char> {
    if ring.len() < 3 {
        Seq::empty()
    } else {
        "0\nPOLYLINE\n8\n"@ + layer + "\n66\n1\n70\n9\n"@ + vertices_text(layer, ring, ring.len() as int)
            + "0\nSEQEND\n"@
    }
}

pub open spec fn rings_text(panel: DxfPanel, upto: int) -> Seq<char>
    decreases upto,
{
    if upto <= 0 {
        Seq::empty()
    } else {
        rings_text(panel, upto - 1) + polyline_text(
            panel_layer(panel.panel_type),
            panel.polygons@[upto - 1]@,
        )
    }
}

pub open spec fn lines_text(bars: Seq<DxfBar>, upto: int) -> Seq<char>
    decreases upto,
{
    if upto <= 0 {
        Seq::empty()
    } else {
        lines_text(bars, upto - 1) + line_text(bars[upto - 1])
    }
}

pub open spec fn panels_text(panels: Seq<DxfPanel>, upto: int) -> Seq<char>
    decreases upto,
{
    if upto <= 0 {
        Seq::empty()
    } else {
        panels_text(panels, upto - 1) + rings_text(
            panels[upto - 1],
            panels[upto - 1].polygons@.len() as int,
        )
    }
}

pub open spec fn header_text() -> Seq<char> {
    "0\nSECTION\n2\nHEADER\n0\nENDSEC\n0\nSECTION\n2\nTABLES\n0\nTABLE\n2\nLAYER\n70\n6\n"@ + layer_text(
        "SLABS"@,
        1,
    ) + layer_text("WALLS"@, 3) + layer_text("INCLINED"@, 2) + layer_text("COLUMNS"@, 5) + layer_text(
        "BEAMS"@,
        4,
    ) + layer_text("BRACES"@, 6) + "0\nENDTAB\n0\nENDSEC\n0\nSECTION\n2\nENTITIES\n"@
}

pub open spec fn drawing_text(bars: Seq<DxfBar>, panels: Seq<DxfPanel>) -> Seq<char> {
    header_text() + lines_text(bars, bars.len() as int) + panels_text(panels, panels.len() as int)
        + "0\nENDSEC\n0\nEOF\n"@
}

impl DxfExporter {
    /// Appends a layer to the table of layers.
    pub fn write_layer(w: &mut String, name: &str, color: i16)
        ensures
            final(w)@ == old(w)@ + layer_text(name@, color as int),
    {
        w.append("0\nLAYER\n2\n");
        w.append(name);
        w.append("\n70\n0\n62\n");
        append_signed(w, color);
        w.append("\n6\nCONTINUOUS\n");
        assert(w@ =~= old(w)@ + layer_text(name@, color as int));
    }

    fn write_header(w: &mut String)
        ensures
            final(w)@ == old(w)@ + header_text(),
    {
        w.append("0\nSECTION\n2\nHEADER\n0\nENDSEC\n0\nSECTION\n2\nTABLES\n0\nTABLE\n2\nLAYER\n70\n6\n");
        Self::write_layer(w, "SLABS", 1);
        Self::write_layer(w, "WALLS", 3);
        Self::write_layer(w, "INCLINED", 2);
        Self::write_layer(w, "COLUMNS", 5);
        Self::write_layer(w, "BEAMS", 4);
        Self::write_layer(w, "BRACES", 6);
        w.append("0\nENDTAB\n0\nENDSEC\n0\nSECTION\n2\nENTITIES\n");
        assert(w@ =~= old(w)@ + header_text());
    }

    fn write_line(w: &mut String, bar: &DxfBar)
        ensures
            final(w)@ == old(w)@ + line_text(*bar),
    {
        w.append("0\nLINE\n8\n");
        w.append(bar_layer_name(bar.bar_type));
        w.append("\n10\n");
        w.append(bar.coordinates[0].as_str());
        w.append("\n20\n");
        w.append(bar.coordinates[1].as_str());
        w.append("\n30\n");
        w.append(bar.coordinates[2].as_str());
        w.append("\n11\n");
        w.append(bar.coordinates[3].as_str());
        w.append("\n21\n");
        w.append(bar.coordinates[4].as_str());
        w.append("\n31\n");
        w.append(bar.coordinates[5].as_str());
        w.append("\n");
        assert(w@ =~= old(w)@ + line_text(*bar));
    }

    fn write_vertex(w: &mut String, layer: &str, point: &[String; 3])
        ensures
            final(w)@ == old(w)@ + vertex_text(layer@, *point),
    {
        w.append("0\nVERTEX\n8\n");
        w.append(layer);
        w.append("\n10\n");
        w.append(point[0].as_str());
        w.append("\n20\n");
        w.append(point[1].as_str());
        w.append("\n30\n");
        w.append(point[2].as_str());
        w.append("\n70\n32\n");
        assert(w@ =~= old(w)@ + vertex_text(layer@, *point));
    }

    fn write_polyline(w: &mut String, layer: &str, ring: &Vec<[String; 3]>)
        ensures
            final(w)@ == old(w)@ + polyline_text(layer@, ring@),
    {
        if ring.len() < 3 {
            assert(w@ =~= old(w)@ + polyline_text(layer@, ring@));
            return;
        }
        w.append("0\nPOLYLINE\n8\n");
        w.append(layer);
        w.append("\n66\n1\n70\n9\n");
        let ghost start = w@;
        let mut k: usize = 0;
        assert(w@ =~= start + vertices_text(layer@, ring@, 0));
        while k < ring.len()
            invariant
                k <= ring@.len(),
                w@ == start + vertices_text(layer@, ring@, k as int),
            decreases ring@.len() - k,
        {
            Self::write_vertex(w, layer, &ring[k]);
            assert(w@ =~= start + vertices_text(layer@, ring@, k + 1));
            k += 1;
        }
        w.append("0\nSEQEND\n");
        assert(w@ =~= old(w)@ + polyline_text(layer@, ring@));
    }

    /// The whole drawing.
    pub fn drawing(bars: &Vec<DxfBar>, panels: &Vec<DxfPanel>) -> (r: String)
        ensures
            r@ == drawing_text(bars@, panels@),
    {
        let mut w = "".to_string();
        proof {
            reveal_strlit("");
            assert(""@ =~= Seq::<char>::empty());
        }
        Self::write_header(&mut w);
        assert(w@ =~= header_text() + lines_text(bars@, 0));
        let mut k: usize = 0;
        while k < bars.len()
            invariant
                k <= bars@.len(),
                w@ == header_text() + lines_text(bars@, k as int),
            decreases bars@.len() - k,
        {
            Self::write_line(&mut w, &bars[k]);
            assert(w@ =~= header_text() + lines_text(bars@, k + 1));
            k += 1;
        }
        let ghost start = w@;
        assert(w@ =~= start + panels_text(panels@, 0));
        let mut p: usize = 0;
        while p < panels.len()
            invariant
                p <= panels@.len(),
                w@ == start + panels_text(panels@, p as int),
            decreases panels@.len() - p,
        {
            let panel = &panels[p];
            let layer = panel_layer_name(panel.panel_type);
            let ghost before = w@;
            assert(w@ =~= before + rings_text(*panel, 0));
            let mut g: usize = 0;
            while g < panel.polygons.len()
                invariant
                    g <= panel.polygons@.len(),
                    layer@ == panel_layer(panel.panel_type),
                    w@ == before + rings_text(*panel, g as int),
                decreases panel.polygons@.len() - g,
            {
                Self::write_polyline(&mut w, layer, &panel.polygons[g]);
                assert(w@ =~= before + rings_text(*panel, g + 1));
                g += 1;
            }
            assert(w@ =~= start + panels_text(panels@, p + 1));
            p += 1;
        }
        w.append("0\nENDSEC\n0\nEOF\n");
        assert(w@ =~= drawing_text(bars@, panels@));
        w
    }
}

/// Contours of fewer than three points leave no trace in a drawing.
pub proof fn short_contours_are_not_drawn(panel: DxfPanel, upto: int)
    requires
        0 <= upto <= panel.polygons@.len(),
        forall|g: int| 0 <= g < upto ==> (#[trigger] panel.polygons@[g])@.len() < 3,
    ensures
        rings_text(panel, upto) == Seq::<char>::empty(),
    decreases upto,
{
    if upto > 0 {
        short_contours_are_not_drawn(panel, upto - 1);
        assert(panel.polygons@[upto - 1]@.len() < 3);
        assert(rings_text(panel, upto) =~= Seq::<char>::empty());
    }
}

/// One pair of a drawing: a group code and what stands under it.
pub open spec fn group(code: Seq<char>, value: Seq<char>) -> Seq<char> {
    code + seq!['\n'] + value + seq!['\n']
}

/// A vertex record holds the layer and the three coordinates of its point, in the order x,
/// y, z.
pub proof fn vertices_hold_their_point(layer: Seq<char>, point: [String; 3])
    ensures
        vertex_text(layer, point) == group("0"@, "VERTEX"@) + group("8"@, layer) + group("10"@, point[0]@) + group(
            "20"@,
            point[1]@,
        ) + group("30"@, point[2]@) + group("70"@, "32"@),
{
    reveal_strlit("0");
    reveal_strlit("8");
    reveal_strlit("10");
    reveal_strlit("20");
    reveal_strlit("30");
    reveal_strlit("70");
    reveal_strlit("32");
    reveal_strlit("VERTEX");
    reveal_strlit("0\nVERTEX\n8\n");
    reveal_strlit("\n10\n");
    reveal_strlit("\n20\n");
    reveal_strlit("\n30\n");
    reveal_strlit("\n70\n32\n");
    assert("0\nVERTEX\n8\n"@ =~= group("0"@, "VERTEX"@) + "8"@ + seq!['\n']);
    assert("\n10\n"@ =~= seq!['\n'] + "10"@ + seq!['\n']);
    assert("\n20\n"@ =~= seq!['\n'] + "20"@ + seq!['\n']);
    assert("\n30\n"@ =~= seq!['\n'] + "30"@ + seq!['\n']);
    assert("\n70\n32\n"@ =~= seq!['\n'] + group("70"@, "32"@));
    assert(vertex_text(layer, point) =~= group("0"@, "VERTEX"@) + group("8"@, layer) + group("10"@, point[0]@) + group(
        "20"@,
        point[1]@,
    ) + group("30"@, point[2]@) + group("70"@, "32"@));
}

/// A line holds the layer of the bar, its start and its end.
pub proof fn lines_hold_both_ends(bar: DxfBar)
    ensures
        line_text(bar) == group("0"@, "LINE"@) + group("8"@, bar_layer(bar.bar_type)) + group("10"@, bar.coordinates[0]@)
            + group("20"@, bar.coordinates[1]@) + group("30"@, bar.coordinates[2]@) + group("11"@, bar.coordinates[3]@)
            + group("21"@, bar.coordinates[4]@) + group("31"@, bar.coordinates[5]@),
{
    reveal_strlit("0");
    reveal_strlit("8");
    reveal_strlit("10");
    reveal_strlit("20");
    reveal_strlit("30");
    reveal_strlit("11");
    reveal_strlit("21");
    reveal_strlit("31");
    reveal_strlit("LINE");
    reveal_strlit("\n");
    reveal_strlit("0\nLINE\n8\n");
    reveal_strlit("\n10\n");
    reveal_strlit("\n20\n");
    reveal_strlit("\n30\n");
    reveal_strlit("\n11\n");
    reveal_strlit("\n21\n");
    reveal_strlit("\n31\n");
    assert("0\nLINE\n8\n"@ =~= group("0"@, "LINE"@) + "8"@ + seq!['\n']);
    assert("\n10\n"@ =~= seq!['\n'] + "10"@ + seq!['\n']);
    assert("\n20\n"@ =~= seq!['\n'] + "20"@ + seq!['\n']);
    assert("\n30\n"@ =~= seq!['\n'] + "30"@ + seq!['\n']);
    assert("\n11\n"@ =~= seq!['\n'] + "11"@ + seq!['\n']);
    assert("\n21\n"@ =~= seq!['\n'] + "21"@ + seq!['\n']);
    assert("\n31\n"@ =~= seq!['\n'] + "31"@ + seq!['\n']);
    assert("\n"@ =~= seq!['\n']);
    assert(line_text(bar) =~= group("0"@, "LINE"@) + group("8"@, bar_layer(bar.bar_type)) + group(
        "10"@,
        bar.coordinates[0]@,
    ) + group("20"@, bar.coordinates[1]@) + group("30"@, bar.coordinates[2]@) + group("11"@, bar.coordinates[3]@) + group(
        "21"@,
        bar.coordinates[4]@,
    ) + group("31"@, bar.coordinates[5]@));
}

/// A contour has one vertex record for each of its points, in their order.
pub proof fn contours_have_every_vertex(layer: Seq<char>, ring: Seq<[String; 3]>, upto: int)
    requires
        0 <= upto <= ring.len(),
    ensures
        vertices_text(layer, ring, upto) == Seq::new(upto as nat, |k: int| vertex_text(layer, ring[k])).flatten(),
    decreases upto,
{
    let parts = Seq::new(upto as nat, |k: int| vertex_text(layer, ring[k]));
    parts.lemma_flatten_and_flatten_alt_are_equivalent();
    if upto > 0 {
        contours_have_every_vertex(layer, ring, upto - 1);
        let fewer = Seq::new((upto - 1) as nat, |k: int| vertex_text(layer, ring[k]));
        fewer.lemma_flatten_and_flatten_alt_are_equivalent();
        assert(parts.drop_last() =~= fewer);
    }
}

/// A contour of three points or more is a closed polyline in space on its layer: its head,
/// all its vertices, its end.
pub proof fn contours_are_closed_polylines(layer: Seq<char>, ring: Seq<[String; 3]>)
    requires
        ring.len() >= 3,
    ensures
        polyline_text(layer, ring) == group("0"@, "POLYLINE"@) + group("8"@, layer) + group("66"@, "1"@) + group(
            "70"@,
            "9"@,
        ) + Seq::new(ring.len(), |k: int| vertex_text(layer, ring[k])).flatten() + group("0"@, "SEQEND"@),
{
    contours_have_every_vertex(layer, ring, ring.len() as int);
    let inner = vertices_text(layer, ring, ring.len() as int);
    reveal_strlit("0");
    reveal_strlit("8");
    reveal_strlit("66");
    reveal_strlit("1");
    reveal_strlit("70");
    reveal_strlit("9");
    reveal_strlit("POLYLINE");
    reveal_strlit("SEQEND");
    reveal_strlit("0\nPOLYLINE\n8\n");
    reveal_strlit("\n66\n1\n70\n9\n");
    reveal_strlit("0\nSEQEND\n");
    assert("0\nPOLYLINE\n8\n"@ =~= group("0"@, "POLYLINE"@) + "8"@ + seq!['\n']);
    assert("\n66\n1\n70\n9\n"@ =~= seq!['\n'] + group("66"@, "1"@) + group("70"@, "9"@));
    assert("0\nSEQEND\n"@ =~= group("0"@, "SEQEND"@));
    assert(polyline_text(layer, ring) =~= group("0"@, "POLYLINE"@) + group("8"@, layer) + group("66"@, "1"@) + group(
        "70"@,
        "9"@,
    ) + inner + group("0"@, "SEQEND"@));
}

/// A drawing has one line for each bar, in their order.
pub proof fn every_bar_is_drawn(bars: Seq<DxfBar>, upto: int)
    requires
        0 <= upto <= bars.len(),
    ensures
        lines_text(bars, upto) == Seq::new(upto as nat, |k: int| line_text(bars[k])).flatten(),
    decreases upto,
{
    let parts = Seq::new(upto as nat, |k: int| line_text(bars[k]));
    parts.lemma_flatten_and_flatten_alt_are_equivalent();
    if upto > 0 {
        every_bar_is_drawn(bars, upto - 1);
        let fewer = Seq::new((upto - 1) as nat, |k: int| line_text(bars[k]));
        fewer.lemma_flatten_and_flatten_alt_are_equivalent();
        assert(parts.drop_last() =~= fewer);
    }
}

/// A panel has one polyline for each of its contours, on the layer of its type.
pub proof fn every_contour_is_drawn(panel: DxfPanel, upto: int)
    requires
        0 <= upto <= panel.polygons@.len(),
    ensures
        rings_text(panel, upto) == Seq::new(
            upto as nat,
            |g: int| polyline_text(panel_layer(panel.panel_type), panel.polygons@[g]@),
        ).flatten(),
    decreases upto,
{
    let parts = Seq::new(upto as nat, |g: int| polyline_text(panel_layer(panel.panel_type), panel.polygons@[g]@));
    parts.lemma_flatten_and_flatten_alt_are_equivalent();
    if upto > 0 {
        every_contour_is_drawn(panel, upto - 1);
        let fewer = Seq::new(
            (upto - 1) as nat,
            |g: int| polyline_text(panel_layer(panel.panel_type), panel.polygons@[g]@),
        );
        fewer.lemma_flatten_and_flatten_alt_are_equivalent();
        assert(parts.drop_last() =~= fewer);
    }
}

/// A drawing has all contours of every panel, in the order of the panels.
pub proof fn every_panel_is_drawn(panels: Seq<DxfPanel>, upto: int)
    requires
        0 <= upto <= panels.len(),
    ensures
        panels_text(panels, upto) == Seq::new(
            upto as nat,
            |p: int|
                Seq::new(
                    panels[p].polygons@.len(),
                    |g: int| polyline_text(panel_layer(panels[p].panel_type), panels[p].polygons@[g]@),
                ).flatten(),
        ).flatten(),
    decreases upto,
{
    let part = |p: int|
        Seq::new(
            panels[p].polygons@.len(),
            |g: int| polyline_text(panel_layer(panels[p].panel_type), panels[p].polygons@[g]@),
        ).flatten();
    let parts = Seq::new(upto as nat, part);
    parts.lemma_flatten_and_flatten_alt_are_equivalent();
    if upto > 0 {
        every_panel_is_drawn(panels, upto - 1);
        let fewer = Seq::new((upto - 1) as nat, part);
        fewer.lemma_flatten_and_flatten_alt_are_equivalent();
        assert(parts.drop_last() =~= fewer);
        every_contour_is_drawn(panels[upto - 1], panels[upto - 1].polygons@.len() as int);
    }
}

/// Each type is drawn on its own layer.
pub proof fn types_have_their_layers(bar: BarType, panel: PanelType)
    ensures
        bar == BarType::Column <==> bar_layer(bar) == "COLUMNS"@,
        bar == BarType::Beam <==> bar_layer(bar) == "BEAMS"@,
        bar == BarType::Brace <==> bar_layer(bar) == "BRACES"@,
        panel == PanelType::Slab <==> panel_layer(panel) == "SLABS"@,
        panel == PanelType::Wall <==> panel_layer(panel) == "WALLS"@,
        panel == PanelType::InclinedPanel <==> panel_layer(panel) == "INCLINED"@,
        bar_layer(bar) != panel_layer(panel),
{
    reveal_strlit("COLUMNS");
    reveal_strlit("BEAMS");
    reveal_strlit("BRACES");
    reveal_strlit("SLABS");
    reveal_strlit("WALLS");
    reveal_strlit("INCLINED");
    assert("SLABS"@[0] == 'S' && "WALLS"@[0] == 'W' && "BEAMS"@[0] == 'B');
    assert("COLUMNS"@.len() == 7 && "BEAMS"@.len() == 5 && "BRACES"@.len() == 6);
    assert("SLABS"@.len() == 5 && "WALLS"@.len() == 5 && "INCLINED"@.len() == 8);
}

/// A layer of the table names the layer and its colour.
pub proof fn layers_hold_name_and_colour(name: Seq<char>, color: int)
    ensures
        layer_text(name, color) == group("0"@, "LAYER"@) + group("2"@, name) + group("70"@, "0"@) + group("62"@, signed(color))
            + group("6"@, "CONTINUOUS"@),
{
    reveal_strlit("0");
    reveal_strlit("2");
    reveal_strlit("70");
    reveal_strlit("62");
    reveal_strlit("6");
    reveal_strlit("LAYER");
    reveal_strlit("CONTINUOUS");
    reveal_strlit("0\nLAYER\n2\n");
    reveal_strlit("\n70\n0\n62\n");
    reveal_strlit("\n6\nCONTINUOUS\n");
    assert("0\nLAYER\n2\n"@ =~= group("0"@, "LAYER"@) + "2"@ + seq!['\n']);
    assert("\n70\n0\n62\n"@ =~= seq!['\n'] + group("70"@, "0"@) + "62"@ + seq!['\n']);
    assert("\n6\nCONTINUOUS\n"@ =~= seq!['\n'] + group("6"@, "CONTINUOUS"@));
    assert(layer_text(name, color) =~= group("0"@, "LAYER"@) + group("2"@, name) + group("70"@, "0"@) + group("62"@, signed(color))
        + group("6"@, "CONTINUOUS"@));
}

pub open spec fn part_at(text: Seq<char>, part: Seq<char>, at: int) -> bool {
    0 <= at && at + part.len() <= text.len() && text.subrange(at, at + part.len()) == part
}

/// The part stands somewhere in the text.
pub open spec fn has_part(text: Seq<char>, part: Seq<char>) -> bool {
    exists|at: int| #[trigger] part_at(text, part, at)
}

proof fn part_between(text: Seq<char>, before: Seq<char>, part: Seq<char>, after: Seq<char>)
    requires
        text == before + part + after,
    ensures
        has_part(text, part),
{
    assert(text.subrange(before.len() as int, (before.len() + part.len()) as int) =~= part);
    assert(part_at(text, part, before.len() as int));
}

/// Every layer that something is drawn on is declared in the table of layers, each in a
/// colour of its own.
pub proof fn layers_are_declared(bar: BarType, panel: PanelType)
    ensures
        has_part(
            header_text(),
            layer_text(
                bar_layer(bar),
                match bar {
                    BarType::Column => 5,
                    BarType::Beam => 4,
                    BarType::Brace => 6,
                },
            ),
        ),
        has_part(
            header_text(),
            layer_text(
                panel_layer(panel),
                match panel {
                    PanelType::Slab => 1,
                    PanelType::Wall => 3,
                    PanelType::InclinedPanel => 2,
                },
            ),
        ),
{
    let head = "0\nSECTION\n2\nHEADER\n0\nENDSEC\n0\nSECTION\n2\nTABLES\n0\nTABLE\n2\nLAYER\n70\n6\n"@;
    let foot = "0\nENDTAB\n0\nENDSEC\n0\nSECTION\n2\nENTITIES\n"@;
    let (a, b, c) = (layer_text("SLABS"@, 1), layer_text("WALLS"@, 3), layer_text("INCLINED"@, 2));
    let (d, e, f) = (layer_text("COLUMNS"@, 5), layer_text("BEAMS"@, 4), layer_text("BRACES"@, 6));
    let whole = header_text();
    assert(whole =~= head + a + (b + c + d + e + f + foot));
    part_between(whole, head, a, b + c + d + e + f + foot);
    assert(whole =~= (head + a) + b + (c + d + e + f + foot));
    part_between(whole, head + a, b, c + d + e + f + foot);
    assert(whole =~= (head + a + b) + c + (d + e + f + foot));
    part_between(whole, head + a + b, c, d + e + f + foot);
    assert(whole =~= (head + a + b + c) + d + (e + f + foot));
    part_between(whole, head + a + b + c, d, e + f + foot);
    assert(whole =~= (head + a + b + c + d) + e + (f + foot));
    part_between(whole, head + a + b + c + d, e, f + foot);
    part_between(whole, head + a + b + c + d + e, f, foot);
}

/// What is drawn stands between the head and the end of the drawing, bars first.
pub proof fn drawings_hold_all(bars: Seq<DxfBar>, panels: Seq<DxfPanel>)
    ensures
        drawing_text(bars, panels) == header_text() + Seq::new(bars.len(), |k: int| line_text(bars[k])).flatten() + Seq::new(
            panels.len(),
            |p: int|
                Seq::new(
                    panels[p].polygons@.len(),
                    |g: int| polyline_text(panel_layer(panels[p].panel_type), panels[p].polygons@[g]@),
                ).flatten(),
        ).flatten() + "0\nENDSEC\n0\nEOF\n"@,
{
    every_bar_is_drawn(bars, bars.len() as int);
    every_panel_is_drawn(panels, panels.len() as int);
}

} // verus!
