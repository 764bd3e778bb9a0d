//! Points, polylines and the geometry normalizer.
//!
//! Coordinates are fixed-point integers: one drawing unit is `UNIT`
//! sub-units, so `12.5` units is held as `12_500`.
use vstd::arithmetic::div_mod::lemma_fundamental_div_mod_converse;
use vstd::prelude::*;

verus! {

/// Sub-units per drawing unit.
pub const UNIT: i64 = 1000;

/// Largest magnitude of a source coordinate or of an offset, in sub-units.
pub const MAX_COORD: i64 = 0x100_0000_0000;

/// Largest magnitude of a scale factor, in thousandths.
pub const MAX_SCALE: i64 = 0x10_0000;

/// Largest magnitude of a coordinate in drawing space, in sub-units.
pub const MAX_DRAW: i64 = 0x10_0000_0000_0000;

/// A point, each coordinate in sub-units.
#[derive(Clone, Copy, Debug, PartialEq, Eq, Structural)]
pub struct Point {
    pub x: i64,
    pub y: i64,
}

pub open spec fn abs(v: int) -> int {
    if v < 0 {
        -v
    } else {
        v
    }
}

/// Both coordinates have magnitude at most `lim`.
pub open spec fn within(p: Point, lim: int) -> bool {
    abs(p.x as int) <= lim && abs(p.y as int) <= lim
}

/// Manhattan distance between two points.
pub open spec fn manhattan(a: Point, b: Point) -> int {
    abs(a.x - b.x) + abs(a.y - b.y)
}

/// What a document of owned polylines holds.
pub open spec fn doc_view(d: Seq<Vec<Point>>) -> Seq<Seq<Point>> {
    d.map_values(|v: Vec<Point>| v@)
}

/// Every polyline is non-empty and every point is within `lim`.
pub open spec fn doc_within(d: Seq<Seq<Point>>, lim: int) -> bool {
    forall|i: int, j: int|
        0 <= i < d.len() && 0 <= j < d[i].len() ==> #[trigger] within(d[i][j], lim)
}

/// Every polyline holds at least one point.
pub open spec fn no_empty_polyline(d: Seq<Seq<Point>>) -> bool {
    forall|i: int| 0 <= i < d.len() ==> #[trigger] d[i].len() > 0
}

/// A document as the library accepts it from its source.
pub open spec fn source_doc_ok(d: Seq<Seq<Point>>) -> bool {
    no_empty_polyline(d) && doc_within(d, MAX_COORD as int)
}

/// The number of points of all polylines together.
pub open spec fn total_points(d: Seq<Seq<Point>>) -> int
    decreases d.len(),
{
    if d.len() == 0 {
        0
    } else {
        total_points(d.drop_last()) + d.last().len()
    }
}

/// Configuration of a compilation.
#[derive(Clone, Copy, Debug)]
pub struct Config {
    /// Scale factor in thousandths (`1000` is the identity).
    pub scale: i64,
    /// Offset added on the x axis, in sub-units.
    pub x_offset: i64,
    /// Offset added on the y axis, in sub-units.
    pub y_offset: i64,
    /// Pause before a stroke that starts close to the last drawn point.
    pub pause_ms: u32,
    /// Wait before the calibration box and before each drawing pass.
    pub start_interval_ms: u32,
    /// Drop small, nearly closed polylines.
    pub filter_specks: bool,
    /// Press the button slowly and wait longer between strokes.
    pub server_mode: bool,
    /// A stroke that starts closer than this (Manhattan, in sub-units) to
    /// the last drawn point is preceded by a pause.
    pub proximity: i64,
}

/// The identity scale factor.
pub const IDENTITY_SCALE: i64 = 1000;

/// Default pause before a stroke that starts near the last drawn point.
pub const DEFAULT_PAUSE_MS: u32 = 750;

/// Default wait before drawing starts.
pub const DEFAULT_START_INTERVAL_MS: u32 = 3000;

/// Default proximity threshold: 50 drawing units.
///
/// Earlier releases used 250 units instead; which of the two the target
/// environment needs is an open product decision, so the threshold is a
/// configuration field rather than a fixed rule.
pub const DEFAULT_PROXIMITY: i64 = 50_000;

impl Config {
    /// Scale and offsets are within the bounds that keep arithmetic exact.
    pub open spec fn wf(&self) -> bool {
        abs(self.scale as int) <= MAX_SCALE && abs(self.x_offset as int) <= MAX_COORD && abs(
            self.y_offset as int,
        ) <= MAX_COORD
    }
}

impl Default for Config {
    /// Identity scale, no offsets, a 750 ms pause, a 3 s start interval, no
    /// filtering, no server mode, and `DEFAULT_PROXIMITY`.
    ///
    /// The offset defaults are an open choice as well: earlier releases
    /// offset both axes by one unit (`UNIT`) instead of zero, and the
    /// proximity threshold has been both 50 and 250 units. Callers that need
    /// the other values set the fields.
    fn default() -> (c: Config)
        ensures
            c.scale == IDENTITY_SCALE,
            c.x_offset == 0,
            c.y_offset == 0,
            c.pause_ms == DEFAULT_PAUSE_MS,
            c.start_interval_ms == DEFAULT_START_INTERVAL_MS,
            !c.filter_specks,
            !c.server_mode,
            c.proximity == DEFAULT_PROXIMITY,
    {
        Config {
            scale: IDENTITY_SCALE,
            x_offset: 0,
            y_offset: 0,
            pause_ms: DEFAULT_PAUSE_MS,
            start_interval_ms: DEFAULT_START_INTERVAL_MS,
            filter_specks: false,
            server_mode: false,
            proximity: DEFAULT_PROXIMITY,
        }
    }
}

/// `v * scale + offset`, with `scale` in thousandths, rounded down to a sub-unit.
pub open spec fn scale_coord(v: int, scale: int, offset: int) -> int {
    (v * scale) / (UNIT as int) + offset
}

/// A point carried from source units into drawing space.
pub open spec fn transform_point(p: Point, c: Config) -> Point {
    Point {
        x: scale_coord(p.x as int, c.scale as int, c.x_offset as int) as i64,
        y: scale_coord(p.y as int, c.scale as int, c.y_offset as int) as i64,
    }
}

pub open spec fn transform_polyline(l: Seq<Point>, c: Config) -> Seq<Point> {
    l.map_values(|p: Point| transform_point(p, c))
}

pub open spec fn transform_doc(d: Seq<Seq<Point>>, c: Config) -> Seq<Seq<Point>> {
    d.map_values(|l: Seq<Point>| transform_polyline(l, c))
}

/// Floor division by a positive divisor.
pub fn floor_div(a: i64, b: i64) -> (q: i64)
    requires
        b > 0,
        a > i64::MIN,
    ensures
        q == a / b,
{
    if a >= 0 {
        a / b
    } else {
        let n: i64 = -a;
        let t: i64 = (n - 1) / b;
        proof {
            let m = (n - 1) % (b as int);
            assert((n - 1) == t * b + m && 0 <= m < b) by {
                vstd::arithmetic::div_mod::lemma_fundamental_div_mod((n - 1) as int, b as int);
            }
            assert(a == (-t - 1) * b + (b - 1 - m)) by (nonlinear_arith)
                requires
                    n - 1 == t * b + m,
                    a == -n,
            ;
            lemma_fundamental_div_mod_converse(a as int, b as int, -t - 1, b - 1 - m);
        }
        -t - 1
    }
}

proof fn lemma_scale_bounds(v: int, s: int, o: int)
    requires
        abs(v) <= MAX_COORD,
        abs(s) <= MAX_SCALE,
        abs(o) <= MAX_COORD,
    ensures
        abs(v * s) <= 0x1000_0000_0000_0000,
        abs(scale_coord(v, s, o)) <= MAX_DRAW,
{
    assert(abs(v * s) <= 0x1000_0000_0000_0000) by (nonlinear_arith)
        requires
            abs(v) <= 0x100_0000_0000,
            abs(s) <= 0x10_0000,
    ;
    let p = v * s;
    let lo: int = -0x1000_0000_0000_0000int;
    let hi: int = 0x1000_0000_0000_0000int;
    assert(lo / 1000 <= p / 1000 <= hi / 1000) by {
        vstd::arithmetic::div_mod::lemma_div_is_ordered(lo, p, 1000);
        vstd::arithmetic::div_mod::lemma_div_is_ordered(p, hi, 1000);
    }
}

/// One coordinate carried into drawing space.
pub fn scale_coord_exec(v: i64, scale: i64, offset: i64) -> (r: i64)
    requires
        abs(v as int) <= MAX_COORD,
        abs(scale as int) <= MAX_SCALE,
        abs(offset as int) <= MAX_COORD,
    ensures
        r == scale_coord(v as int, scale as int, offset as int),
        abs(r as int) <= MAX_DRAW,
{
    proof {
        lemma_scale_bounds(v as int, scale as int, offset as int);
    }
    let p: i64 = v * scale;
    floor_div(p, UNIT) + offset
}

/// The point `(x * scale + x_offset, y * scale + y_offset)`.
pub fn normalize_point(p: Point, c: &Config) -> (r: Point)
    requires
        within(p, MAX_COORD as int),
        c.wf(),
    ensures
        r == transform_point(p, *c),
        within(r, MAX_DRAW as int),
{
    Point { x: scale_coord_exec(p.x, c.scale, c.x_offset), y: scale_coord_exec(p.y, c.scale, c.y_offset) }
}

/// Every point of every polyline carried into drawing space.
pub fn normalize(doc: &Vec<Vec<Point>>, c: &Config) -> (r: Vec<Vec<Point>>)
    requires
        doc_within(doc_view(doc@), MAX_COORD as int),
        c.wf(),
    ensures
        doc_view(r@) == transform_doc(doc_view(doc@), *c),
        doc_within(doc_view(r@), MAX_DRAW as int),
{
    let ghost d = doc_view(doc@);
    let mut r: Vec<Vec<Point>> = Vec::new();
    let mut i: usize = 0;
    while i < doc.len()
        invariant
            d == doc_view(doc@),
            doc_within(d, MAX_COORD as int),
            c.wf(),
            i <= doc.len(),
            r@.len() == i,
            forall|k: int| 0 <= k < i ==> #[trigger] r@[k]@ == transform_polyline(d[k], *c),
        decreases doc.len() - i,
    {
        let line = &doc[i];
        let mut out: Vec<Point> = Vec::new();
        let mut j: usize = 0;
        while j < line.len()
            invariant
                d == doc_view(doc@),
                doc_within(d, MAX_COORD as int),
                c.wf(),
                i < doc.len(),
                line@ == d[i as int],
                j <= line.len(),
                out@.len() == j,
                forall|k: int| 0 <= k < j ==> #[trigger] out@[k] == transform_point(line@[k], *c),
            decreases line.len() - j,
        {
            assert(within(d[i as int][j as int], MAX_COORD as int));
            out.push(normalize_point(line[j], c));
            j += 1;
        }
        assert(out@ == transform_polyline(d[i as int], *c));
        r.push(out);
        i += 1;
    }
    assert(doc_view(r@) == transform_doc(d, *c));
    proof {
        assert forall|a: int, b: int|
            0 <= a < doc_view(r@).len() && 0 <= b < doc_view(r@)[a].len() implies #[trigger] within(
            doc_view(r@)[a][b],
            MAX_DRAW as int,
        ) by {
            assert(within(d[a][b], MAX_COORD as int));
            lemma_scale_bounds(d[a][b].x as int, c.scale as int, c.x_offset as int);
            lemma_scale_bounds(d[a][b].y as int, c.scale as int, c.y_offset as int);
        }
    }
    r
}

/// The identity configuration leaves every point where it is.
pub proof fn lemma_identity_transform(d: Seq<Seq<Point>>, c: Config)
    requires
        c.scale == IDENTITY_SCALE,
        c.x_offset == 0,
        c.y_offset == 0,
    ensures
        transform_doc(d, c) == d,
{
    assert forall|i: int| 0 <= i < d.len() implies #[trigger] transform_doc(d, c)[i] == d[i] by {
        assert forall|j: int| 0 <= j < d[i].len() implies #[trigger] transform_polyline(d[i], c)[j]
            == d[i][j] by {
            let p = d[i][j];
            assert((p.x as int * 1000) / 1000 == p.x as int) by (nonlinear_arith);
            assert((p.y as int * 1000) / 1000 == p.y as int) by (nonlinear_arith);
        }
        assert(transform_polyline(d[i], c) =~= d[i]);
    }
    assert(transform_doc(d, c) =~= d);
}

/// The extremes of both coordinates over all points.
#[derive(Clone, Copy, Debug, PartialEq, Eq, Structural)]
pub struct Bounds {
    pub min_x: i64,
    pub max_x: i64,
    pub min_y: i64,
    pub max_y: i64,
}

/// Why no bounds exist.
#[derive(Clone, Copy, Debug, PartialEq, Eq, Structural)]
pub enum GeometryError {
    /// The document holds no point.
    EmptyGeometry,
}

/// The document holds at least one point.
pub open spec fn has_points(d: Seq<Seq<Point>>) -> bool {
    exists|i: int| 0 <= i < d.len() && #[trigger] d[i].len() > 0
}

pub open spec fn is_point(d: Seq<Seq<Point>>, i: int, j: int) -> bool {
    0 <= i < d.len() && 0 <= j < d[i].len()
}

/// `b` holds the least and greatest coordinates of the points of `d`.
pub open spec fn is_bounds(d: Seq<Seq<Point>>, b: Bounds) -> bool {
    &&& forall|i: int, j: int|
        is_point(d, i, j) ==> b.min_x <= (#[trigger] d[i][j]).x <= b.max_x && b.min_y <= d[i][j].y
            <= b.max_y
    &&& exists|i: int, j: int| is_point(d, i, j) && (#[trigger] d[i][j]).x == b.min_x
    &&& exists|i: int, j: int| is_point(d, i, j) && (#[trigger] d[i][j]).x == b.max_x
    &&& exists|i: int, j: int| is_point(d, i, j) && (#[trigger] d[i][j]).y == b.min_y
    &&& exists|i: int, j: int| is_point(d, i, j) && (#[trigger] d[i][j]).y == b.max_y
}

/// The bounding extents of all points of a document.
pub fn bounds(doc: &Vec<Vec<Point>>) -> (r: Result<Bounds, GeometryError>)
    ensures
        r matches Ok(b) ==> has_points(doc_view(doc@)) && is_bounds(doc_view(doc@), b),
        r is Err <==> !has_points(doc_view(doc@)),
{
    let ghost d = doc_view(doc@);
    let mut found = false;
    let mut b = Bounds { min_x: 0, max_x: 0, min_y: 0, max_y: 0 };
    let ghost mut w: Seq<(int, int)> = seq![(0int, 0int), (0int, 0int), (0int, 0int), (0int, 0int)];
    let mut i: usize = 0;
    while i < doc.len()
        invariant
            d == doc_view(doc@),
            i <= doc.len(),
            w.len() == 4,
            found <==> exists|k: int| 0 <= k < i && #[trigger] d[k].len() > 0,
            found ==> forall|a: int, c: int|
                is_point(d, a, c) && a < i ==> b.min_x <= (#[trigger] d[a][c]).x <= b.max_x
                    && b.min_y <= d[a][c].y <= b.max_y,
            found ==> forall|k: int|
                0 <= k < 4 ==> is_point(d, (#[trigger] w[k]).0, w[k].1) && w[k].0 < i,
            found ==> d[w[0].0][w[0].1].x == b.min_x && d[w[1].0][w[1].1].x == b.max_x
                && d[w[2].0][w[2].1].y == b.min_y && d[w[3].0][w[3].1].y == b.max_y,
        decreases doc.len() - i,
    {
        let line = &doc[i];
        let mut j: usize = 0;
        while j < line.len()
            invariant
                d == doc_view(doc@),
                i < doc.len(),
                line@ == d[i as int],
                j <= line.len(),
                w.len() == 4,
                found <==> (exists|k: int| 0 <= k < i && #[trigger] d[k].len() > 0) || j > 0,
                found ==> forall|a: int, c: int|
                    is_point(d, a, c) && (a < i || (a == i && c < j)) ==> b.min_x <= (
                    #[trigger] d[a][c]).x <= b.max_x && b.min_y <= d[a][c].y <= b.max_y,
                found ==> forall|k: int|
                    0 <= k < 4 ==> is_point(d, (#[trigger] w[k]).0, w[k].1) && w[k].0 <= i,
                found ==> d[w[0].0][w[0].1].x == b.min_x && d[w[1].0][w[1].1].x == b.max_x
                    && d[w[2].0][w[2].1].y == b.min_y && d[w[3].0][w[3].1].y == b.max_y,
            decreases line.len() - j,
        {
            let p = line[j];
            let ghost here = (i as int, j as int);
            if !found {
                b = Bounds { min_x: p.x, max_x: p.x, min_y: p.y, max_y: p.y };
                proof {
                    w = seq![here, here, here, here];
                }
                found = true;
            } else {
                if p.x < b.min_x {
                    b.min_x = p.x;
                    proof {
                        w = w.update(0, here);
                    }
                }
                if p.x > b.max_x {
                    b.max_x = p.x;
                    proof {
                        w = w.update(1, here);
                    }
                }
                if p.y < b.min_y {
                    b.min_y = p.y;
                    proof {
                        w = w.update(2, here);
                    }
                }
                if p.y > b.max_y {
                    b.max_y = p.y;
                    proof {
                        w = w.update(3, here);
                    }
                }
            }
            j += 1;
        }
        i += 1;
    }
    if found {
        proof {
            assert(is_point(d, w[0].0, w[0].1));
            assert(is_point(d, w[1].0, w[1].1));
            assert(is_point(d, w[2].0, w[2].1));
            assert(is_point(d, w[3].0, w[3].1));
        }
        Ok(b)
    } else {
        Err(GeometryError::EmptyGeometry)
    }
}

/// All points of the document share their x coordinate.
pub open spec fn same_x(d: Seq<Seq<Point>>) -> bool {
    forall|a: int, c: int, e: int, f: int|
        is_point(d, a, c) && is_point(d, e, f) ==> (#[trigger] d[a][c]).x == (#[trigger] d[e][f]).x
}

/// All points of the document share their y coordinate.
pub open spec fn same_y(d: Seq<Seq<Point>>) -> bool {
    forall|a: int, c: int, e: int, f: int|
        is_point(d, a, c) && is_point(d, e, f) ==> (#[trigger] d[a][c]).y == (#[trigger] d[e][f]).y
}

/// Over a document with points, each extent is non-negative, and it is zero
/// exactly when all points share that coordinate.
pub proof fn lemma_extent(d: Seq<Seq<Point>>, b: Bounds)
    requires
        has_points(d),
        is_bounds(d, b),
    ensures
        b.max_x - b.min_x >= 0,
        b.max_y - b.min_y >= 0,
        b.max_x - b.min_x == 0 <==> same_x(d),
        b.max_y - b.min_y == 0 <==> same_y(d),
{
    let (i, j) = choose|i: int, j: int| is_point(d, i, j) && (#[trigger] d[i][j]).x == b.min_x;
    assert(b.min_x <= d[i][j].x <= b.max_x);
    assert(b.min_y <= d[i][j].y <= b.max_y);
    if same_x(d) {
        let (e, f) = choose|e: int, f: int| is_point(d, e, f) && (#[trigger] d[e][f]).x == b.max_x;
        assert(d[i][j].x == d[e][f].x);
    }
    if same_y(d) {
        let (e, f) = choose|e: int, f: int| is_point(d, e, f) && (#[trigger] d[e][f]).y == b.min_y;
        let (g, h) = choose|g: int, h: int| is_point(d, g, h) && (#[trigger] d[g][h]).y == b.max_y;
        assert(d[e][f].y == d[g][h].y);
    }
}

/// The number of vertical test strokes.
pub const TEST_STROKES: usize = 49;

/// The `k`-th test stroke: a vertical line one unit high at `x = k + 0.5`.
pub open spec fn test_stroke(k: int) -> Seq<Point> {
    seq![Point { x: ((2 * k + 1) * 500) as i64, y: 0 }, Point { x: ((2 * k + 1) * 500) as i64, y: UNIT }]
}

/// A document of vertical strokes one unit high at `x = 0.5, 1.5, ..., 48.5`,
/// for trying a setup without a source file.
pub fn gen_test_polygons() -> (r: Vec<Vec<Point>>)
    ensures
        doc_view(r@).len() == TEST_STROKES,
        forall|k: int| 0 <= k < TEST_STROKES ==> #[trigger] doc_view(r@)[k] == test_stroke(k),
{
    let mut result: Vec<Vec<Point>> = Vec::new();
    let mut k: usize = 0;
    while k < TEST_STROKES
        invariant
            k <= TEST_STROKES,
            result@.len() == k,
            forall|a: int| 0 <= a < k ==> #[trigger] result@[a]@ == test_stroke(a),
        decreases TEST_STROKES - k,
    {
        let x: i64 = (2 * k as i64 + 1) * 500;
        let mut line: Vec<Point> = Vec::new();
        line.push(Point { x, y: 0 });
        line.push(Point { x, y: UNIT });
        assert(line@ =~= test_stroke(k as int));
        result.push(line);
        k += 1;
    }
    result
}

} // verus!
