//! What a rendering of the map covers, and how its result is reported.

use crate::index::SpatialIndex;
use crate::rules::{bounds, greater, lesser};
use crate::tables::Cell;
use crate::text::{dec, ends_with, same_text, starts_with, usize_text};
use base64::Engine;
use vstd::prelude::*;

verus! {

/// Result of a render operation.
pub struct RenderResult {
    /// The image as base64-encoded PNG.
    pub base64_png: String,
    pub width_px: u32,
    pub height_px: u32,
    pub width_tiles: u32,
    pub height_tiles: u32,
    /// Icons that could not be loaded.
    pub icon_errors: Vec<String>,
}

/// What is to be rendered.
pub struct RenderPlan {
    /// The level, from 0.
    pub level: usize,
    /// The first column and row, from 0.
    pub min: (usize, usize),
    /// The last column and row, from 0.
    pub max: (usize, usize),
    pub width_tiles: u32,
    pub height_tiles: u32,
    /// The render passes to switch on.
    pub passes_on: String,
    /// The render passes to switch off.
    pub passes_off: String,
}

/// A value brought into a range, the lower end first.
pub open spec fn brought_in(v: int, low: int, high: int) -> int {
    let a = if v < low { low } else { v };
    if a > high { high } else { a }
}

/// The render passes that a filter stands for: to switch on, and to switch off.
pub open spec fn passes(filter: Option<Seq<char>>) -> (Seq<char>, Seq<char>) {
    match filter {
        None => (""@, ""@),
        Some(f) => if f == "pipes"@ {
            ("only-pipenet"@, "all"@)
        } else if f == "cables"@ || f == "wires"@ {
            ("only-powernet"@, "all"@)
        } else if f == "pipes-and-cables"@ || f == "wires-and-pipes"@ {
            ("only-wires-and-pipes"@, "all"@)
        } else {
            (f, ""@)
        },
    }
}

/// Chooses the render passes that a filter stands for.
pub fn choose_passes(filter: Option<&str>) -> (r: (String, String))
    ensures
        (r.0@, r.1@) == passes(crate::builder::opt_str(filter)),
{
    match filter {
        None => ("".to_string(), "".to_string()),
        Some(f) => if same_text(f, "pipes") {
            ("only-pipenet".to_string(), "all".to_string())
        } else if same_text(f, "cables") || same_text(f, "wires") {
            ("only-powernet".to_string(), "all".to_string())
        } else if same_text(f, "pipes-and-cables") || same_text(f, "wires-and-pipes") {
            ("only-wires-and-pipes".to_string(), "all".to_string())
        } else {
            (f.to_string(), "".to_string())
        },
    }
}

/// Each filter with a name of its own shows its networks and nothing else: `pipes` the pipes,
/// `cables` and `wires` alike the power net, and `pipes-and-cables` and `wires-and-pipes` alike
/// both; the three differ. Any other filter is the passes to switch on as it stands, with none
/// to switch off, and without a filter nothing is switched.
pub proof fn filters_show_their_networks(other: Seq<char>)
    requires
        other != "pipes"@,
        other != "cables"@,
        other != "wires"@,
        other != "pipes-and-cables"@,
        other != "wires-and-pipes"@,
    ensures
        passes(Some("pipes"@)) == ("only-pipenet"@, "all"@),
        passes(Some("cables"@)) == ("only-powernet"@, "all"@),
        passes(Some("wires"@)) == ("only-powernet"@, "all"@),
        passes(Some("cables"@)) == passes(Some("wires"@)),
        passes(Some("cables"@)) != passes(Some("pipes"@)),
        passes(Some("pipes-and-cables"@)) == ("only-wires-and-pipes"@, "all"@),
        passes(Some("wires-and-pipes"@)) == ("only-wires-and-pipes"@, "all"@),
        passes(Some("pipes-and-cables"@)) == passes(Some("wires-and-pipes"@)),
        passes(Some("pipes-and-cables"@)) != passes(Some("pipes"@)),
        passes(Some("pipes-and-cables"@)) != passes(Some("cables"@)),
        passes(Some(other)) == (other, ""@),
        passes(None) == (""@, ""@),
{
    reveal_strlit("pipes");
    reveal_strlit("cables");
    reveal_strlit("wires");
    reveal_strlit("pipes-and-cables");
    reveal_strlit("wires-and-pipes");
    reveal_strlit("only-pipenet");
    reveal_strlit("only-powernet");
    reveal_strlit("only-wires-and-pipes");
    assert("only-pipenet"@.len() == 12 && "only-powernet"@.len() == 13 && "only-wires-and-pipes"@.len() == 20);
    assert("wires"@[0] == 'w' && "pipes"@[0] == 'p');
    assert("cables"@.len() == 6 && "pipes"@.len() == 5 && "wires"@.len() == 5);
    assert("pipes-and-cables"@.len() == 16 && "wires-and-pipes"@.len() == 15);
}

fn bring_in(v: usize, low: usize, high: usize) -> (r: usize)
    ensures
        r == brought_in(v as int, low as int, high as int),
{
    let a: usize = if v < low { low } else { v };
    if a > high { high } else { a }
}

/// What is said of a level that is not on the map.
pub open spec fn level_error(z: int, dim_z: int) -> Seq<char> {
    "Z level "@ + dec(z) + " out of range (1-"@ + dec(dim_z) + ")"@
}

/// The first and last column or row of a region, from 1: both brought onto the map.
pub open spec fn span(a: int, b: int, dim: int) -> (int, int) {
    let low = brought_in(a, 1, dim);
    (low, brought_in(b, low, dim))
}

/// Plans the rendering of a rectangle. Coordinates count from 1; what lies off the map is
/// brought onto it. `dims` is columns, rows, levels.
pub fn render_region(
    dims: (usize, usize, usize),
    x1: usize,
    y1: usize,
    x2: usize,
    y2: usize,
    z: usize,
    filter: Option<&str>,
) -> (r: Result<RenderPlan, String>)
    requires
        1 <= dims.0 < i32::MAX,
        1 <= dims.1 < i32::MAX,
    ensures
        match r {
            Ok(p) => {
                let sx = span(x1 as int, x2 as int, dims.0 as int);
                let sy = span(y1 as int, y2 as int, dims.1 as int);
                &&& 1 <= z <= dims.2
                &&& p.level == z - 1
                &&& p.min.0 == sx.0 - 1 && p.min.1 == sy.0 - 1
                &&& p.max.0 == sx.1 - 1 && p.max.1 == sy.1 - 1
                &&& p.width_tiles == sx.1 - sx.0 + 1
                &&& p.height_tiles == sy.1 - sy.0 + 1
                &&& (p.passes_on@, p.passes_off@) == passes(crate::builder::opt_str(filter))
            },
            Err(e) => !(1 <= z <= dims.2) && e@ == level_error(z as int, dims.2 as int),
        },
{
    let (dim_x, dim_y, dim_z) = dims;
    if z < 1 || z > dim_z {
        let mut e = "Z level ".to_string();
        e.append(usize_text(z).as_str());
        e.append(" out of range (1-");
        e.append(usize_text(dim_z).as_str());
        e.append(")");
        return Err(e);
    }
    let ax: usize = bring_in(x1, 1, dim_x);
    let ay: usize = bring_in(y1, 1, dim_y);
    let bx: usize = bring_in(x2, ax, dim_x);
    let by: usize = bring_in(y2, ay, dim_y);
    let (passes_on, passes_off) = choose_passes(filter);
    Ok(
        RenderPlan {
            level: z - 1,
            min: (ax - 1, ay - 1),
            max: (bx - 1, by - 1),
            width_tiles: (bx - ax + 1) as u32,
            height_tiles: (by - ay + 1) as u32,
            passes_on,
            passes_off,
        },
    )
}

/// A level that is refused is named first, and the last one that there is behind it.
pub proof fn a_refused_level_is_named(z: int, dim_z: int)
    ensures
        starts_with(level_error(z, dim_z), "Z level "@ + dec(z) + " out of range"@),
        ends_with(level_error(z, dim_z), dec(dim_z) + ")"@),
{
    reveal_strlit(" out of range (1-");
    reveal_strlit(" out of range");
    let e = level_error(z, dim_z);
    let head = "Z level "@ + dec(z) + " out of range"@;
    let tail = dec(dim_z) + ")"@;
    assert(e.take(head.len() as int) =~= head);
    assert(e.skip(e.len() - tail.len()) =~= tail);
}

/// A planned rectangle lies on the map, and is no smaller than one tile. It is the one asked for
/// where that lies on the map; an end that does not is brought to the nearest tile that does,
/// and an end before the beginning is the beginning.
pub proof fn a_planned_region_lies_on_the_map(a: int, b: int, dim: int)
    requires
        dim >= 1,
    ensures
        1 <= span(a, b, dim).0 <= span(a, b, dim).1 <= dim,
        1 <= a <= b <= dim ==> span(a, b, dim) == (a, b),
        1 <= a <= dim ==> span(a, b, dim).0 == a,
        a < 1 ==> span(a, b, dim).0 == 1,
        a > dim ==> span(a, b, dim) == (dim, dim),
        1 <= b <= dim && a <= b ==> span(a, b, dim).1 == b,
        b > dim ==> span(a, b, dim).1 == dim,
        1 <= b < a <= dim ==> span(a, b, dim) == (a, a),
{
}

// ── Areas ────────────────────────────────────────────────────────────

/// The rectangle around an area with one tile of padding, on the level of its last tile: first
/// column, first row, last column, last row, level, all from 1.
pub open spec fn area_region(tiles: Seq<Cell>, dims: (usize, usize, usize)) -> (usize, usize, usize, usize, usize) {
    let b = bounds(tiles);
    (
        greater(1, (b.0 - 1) as i32) as usize,
        greater(1, (b.1 - 1) as i32) as usize,
        lesser((b.2 + 1) as i32, dims.2 as i32) as usize,
        lesser((b.3 + 1) as i32, dims.1 as i32) as usize,
        tiles.last().2 as usize,
    )
}

/// Whether every tile of an area has neighbours with coordinates.
pub open spec fn can_pad(tiles: Seq<Cell>) -> bool {
    forall|i: int| 0 <= i < tiles.len() ==> i32::MIN < (#[trigger] tiles[i]).0 < i32::MAX && i32::MIN < tiles[i].1 < i32::MAX
}

proof fn lemma_bounds_inside(tiles: Seq<Cell>)
    requires
        tiles.len() > 0,
        can_pad(tiles),
    ensures
        i32::MIN < bounds(tiles).0 < i32::MAX,
        i32::MIN < bounds(tiles).1 < i32::MAX,
        i32::MIN < bounds(tiles).2 < i32::MAX,
        i32::MIN < bounds(tiles).3 < i32::MAX,
    decreases tiles.len(),
{
    let front = tiles.drop_last();
    assert(tiles.last() == tiles[tiles.len() - 1]);
    if front.len() > 0 {
        assert forall|i: int| 0 <= i < front.len() implies i32::MIN < (#[trigger] front[i]).0 < i32::MAX && i32::MIN
            < front[i].1 < i32::MAX by {
            assert(front[i] == tiles[i]);
        }
        lemma_bounds_inside(front);
    } else {
        assert(bounds(front) == (i32::MAX, i32::MAX, i32::MIN, i32::MIN));
    }
}

/// The rectangle around tiles.
fn find_bounds(tiles: &[Cell]) -> (r: (i32, i32, i32, i32))
    ensures
        r == bounds(tiles@),
{
    let mut min_x: i32 = i32::MAX;
    let mut min_y: i32 = i32::MAX;
    let mut max_x: i32 = i32::MIN;
    let mut max_y: i32 = i32::MIN;
    let mut i: usize = 0;
    while i < tiles.len()
        invariant
            i <= tiles@.len(),
            (min_x, min_y, max_x, max_y) == bounds(tiles@.take(i as int)),
        decreases tiles@.len() - i,
    {
        let t = tiles[i];
        assert(tiles@.take(i + 1).drop_last() =~= tiles@.take(i as int));
        if t.0 < min_x {
            min_x = t.0;
        }
        if t.1 < min_y {
            min_y = t.1;
        }
        if t.0 > max_x {
            max_x = t.0;
        }
        if t.1 > max_y {
            max_y = t.1;
        }
        i = i + 1;
    }
    assert(tiles@.take(i as int) =~= tiles@);
    (min_x, min_y, max_x, max_y)
}

/// Finds the rectangle to render for an area; `None` if the area has no tiles.
pub fn render_area(index: &SpatialIndex, area_path: &str) -> (r: Option<(usize, usize, usize, usize, usize)>)
    requires
        index.wf(),
        can_pad(index.area_positions(area_path@)),
    ensures
        r == (if index.area_positions(area_path@).len() == 0 {
            None
        } else {
            Some(area_region(index.area_positions(area_path@), index.dims()))
        }),
{
    let tiles = index.area_tiles(area_path);
    if tiles.len() == 0 {
        return None;
    }
    proof {
        lemma_bounds_inside(tiles@);
    }
    let (min_x, min_y, max_x, max_y) = find_bounds(tiles);
    let (dim_x, dim_y, _) = index.dim_xyz();
    let low_x: i32 = if min_x - 1 > 1 { min_x - 1 } else { 1 };
    let low_y: i32 = if min_y - 1 > 1 { min_y - 1 } else { 1 };
    let high_x: i32 = if (dim_x as i32) < max_x + 1 { dim_x as i32 } else { max_x + 1 };
    let high_y: i32 = if (dim_y as i32) < max_y + 1 { dim_y as i32 } else { max_y + 1 };
    let z: i32 = tiles[tiles.len() - 1].2;
    Some((low_x as usize, low_y as usize, high_x as usize, high_y as usize, z as usize))
}

/// The rectangle around an area holds each of its tiles and reaches one tile further on every
/// side, or to the edge of the map; it holds nothing further off.
pub proof fn a_region_holds_its_area(tiles: Seq<Cell>, dims: (usize, usize, usize))
    requires
        tiles.len() > 0,
        dims.1 < i32::MAX,
        dims.2 < i32::MAX,
        forall|i: int|
            0 <= i < tiles.len() ==> 1 <= (#[trigger] tiles[i]).0 <= dims.2 && 1 <= tiles[i].1 <= dims.1 && 1 <= tiles[i].2,
    ensures
        ({
            let r = area_region(tiles, dims);
            &&& forall|i: int|
                0 <= i < tiles.len() ==> {
                    let t = #[trigger] tiles[i];
                    &&& r.0 <= t.0 <= r.2
                    &&& r.1 <= t.1 <= r.3
                    &&& t.0 > 1 ==> r.0 < t.0
                    &&& t.1 > 1 ==> r.1 < t.1
                    &&& t.0 < dims.2 ==> t.0 < r.2
                    &&& t.1 < dims.1 ==> t.1 < r.3
                }
            &&& exists|i: int| 0 <= i < tiles.len() && (#[trigger] tiles[i]).0 <= r.0 + 1
            &&& exists|i: int| 0 <= i < tiles.len() && (#[trigger] tiles[i]).1 <= r.1 + 1
            &&& exists|i: int| 0 <= i < tiles.len() && (#[trigger] tiles[i]).0 >= r.2 - 1
            &&& exists|i: int| 0 <= i < tiles.len() && (#[trigger] tiles[i]).1 >= r.3 - 1
            &&& 1 <= r.0 && 1 <= r.1 && r.2 <= dims.2 && r.3 <= dims.1
            &&& r.4 == tiles[tiles.len() - 1].2
        }),
{
    crate::evaluate_laws::a_centre_lies_within_the_bounds(tiles);
    let b = bounds(tiles);
    let r = area_region(tiles, dims);
    let i0 = choose|i: int| 0 <= i < tiles.len() && (#[trigger] tiles[i]).0 == b.0;
    let i1 = choose|i: int| 0 <= i < tiles.len() && (#[trigger] tiles[i]).1 == b.1;
    let i2 = choose|i: int| 0 <= i < tiles.len() && (#[trigger] tiles[i]).0 == b.2;
    let i3 = choose|i: int| 0 <= i < tiles.len() && (#[trigger] tiles[i]).1 == b.3;
    assert(tiles[i0].0 <= r.0 + 1);
    assert(tiles[i1].1 <= r.1 + 1);
    assert(tiles[i2].0 >= r.2 - 1);
    assert(tiles[i3].1 >= r.3 - 1);
    assert(1 <= tiles[tiles.len() - 1].2);
}

// ── Results ──────────────────────────────────────────────────────────

/// A digit of the standard base64 alphabet.
pub open spec fn base64_digit(n: int) -> char {
    if n < 26 {
        (65 + n) as char
    } else if n < 52 {
        (71 + n) as char
    } else if n < 62 {
        (n - 4) as char
    } else if n == 62 {
        '+'
    } else {
        '/'
    }
}

/// Bytes in standard base64 with padding: four digits for three bytes.
pub open spec fn base64_text(b: Seq<u8>) -> Seq<char>
    decreases b.len(),
{
    if b.len() == 0 {
        Seq::empty()
    } else if b.len() == 1 {
        seq![base64_digit((b[0] / 4) as int), base64_digit(b[0] % 4 * 16), '=', '=']
    } else if b.len() == 2 {
        seq![base64_digit((b[0] / 4) as int), base64_digit(b[0] % 4 * 16 + b[1] / 16), base64_digit(b[1] % 16 * 4), '=']
    } else {
        seq![
            base64_digit((b[0] / 4) as int),
            base64_digit(b[0] % 4 * 16 + b[1] / 16),
            base64_digit(b[1] % 16 * 4 + b[2] / 64),
            base64_digit((b[2] % 64) as int),
        ] + base64_text(b.skip(3))
    }
}

/// Calls `base64::Engine::encode` of the `STANDARD` engine, which writes bytes in the standard
/// alphabet with padding. It panics when the text would be too long for memory.
#[verifier::external_body]
fn encode_base64(bytes: &Vec<u8>) -> (r: String)
    requires
        4 * ((bytes@.len() + 2) / 3) <= isize::MAX,
    ensures
        r@ == base64_text(bytes@),
{
    base64::engine::general_purpose::STANDARD.encode(bytes)
}

/// Reports a rendered image.
pub fn report_render(plan: &RenderPlan, png: &Vec<u8>, width_px: u32, height_px: u32, icon_errors: Vec<String>) -> (r:
    RenderResult)
    requires
        4 * ((png@.len() + 2) / 3) <= isize::MAX,
    ensures
        r.base64_png@ == base64_text(png@),
        r.width_px == width_px,
        r.height_px == height_px,
        r.width_tiles == plan.width_tiles,
        r.height_tiles == plan.height_tiles,
        r.icon_errors == icon_errors,
{
    RenderResult {
        base64_png: encode_base64(png),
        width_px,
        height_px,
        width_tiles: plan.width_tiles,
        height_tiles: plan.height_tiles,
        icon_errors,
    }
}

} // verus!
