//! The compiler driver: curation, normalization, emission and rendering.
use crate::curate::{
    curated, drawn_from, filter_specks, interleave, interleaved, lemma_curated_from,
    sort_polylines, sorted_by_key, without_specks, SPECK_MAX_POINTS,
};
use crate::geometry::{
    bounds, doc_view, doc_within, has_points, is_bounds, is_point, normalize, source_doc_ok,
    total_points, transform_doc, transform_polyline, within, Bounds, Config, Point, MAX_COORD, MAX_DRAW,
};
use crate::script::{
    box_spec, button_press, depth_from, draw_loop, exit_spec, lemma_moves_tab_free,
    lemma_render_concat, lemma_tab_free, loop_head, loop_tail, moves_upto, origin, render_at,
    stroke, stroke_end, stroke_lead, strokes_upto, tab_free, instr_line, SERVER_PRESS_MS,
    SERVER_STROKE_GAP_MS, SETTLE_MS, moves_at, waits_at, header_spec, move_count, render, wait_total, AhkCode, Instr,
    MOVE_MS,
};
use vstd::prelude::*;

verus! {

/// Why a compilation produced no script.
#[derive(Clone, Copy, Debug, PartialEq, Eq, Structural)]
pub enum CompileError {
    /// No polyline is left to draw.
    EmptyDocument,
}

/// Figures about a compiled drawing.
#[derive(Clone, Copy, Debug)]
pub struct Stats {
    /// Number of polylines drawn.
    pub line_count: usize,
    /// Number of points of all polylines.
    pub point_count: u128,
    /// Number of points of the longest polyline.
    pub longest_line: usize,
    /// Sum of all waits of the script, in milliseconds.
    pub pause_ms: u128,
    /// Estimated time of all pointer moves, in milliseconds.
    pub draw_ms: u128,
    /// Extremes of the drawing, in drawing space.
    pub bounds: Bounds,
    /// `max_x - min_x`, in sub-units.
    pub width: i64,
    /// `max_y - min_y`, in sub-units.
    pub height: i64,
}

/// A finished script and its figures.
pub struct Compiled {
    pub script: String,
    pub stats: Stats,
}

/// The length of the longest polyline.
pub open spec fn longest(d: Seq<Seq<Point>>) -> nat
    decreases d.len(),
{
    if d.len() == 0 {
        0
    } else {
        let m = longest(d.drop_last());
        if d.last().len() > m {
            d.last().len()
        } else {
            m
        }
    }
}

/// The whole instruction log for a document in drawing space with bounds `b`.
pub open spec fn program(d: Seq<Seq<Point>>, b: Bounds, c: Config) -> Seq<Instr> {
    header_spec(true, 1) + exit_spec() + box_spec(
        c.start_interval_ms,
        Point { x: b.min_x, y: b.min_y },
        Point { x: b.max_x, y: b.max_y },
    ) + draw_loop(d, c)
}

/// Server mode lengthens the instruction log by two instructions for each
/// polyline, and changes nothing outside the stroke blocks.
pub proof fn lemma_server_mode_count(d: Seq<Seq<Point>>, b: Bounds, c: Config)
    ensures
        program(d, b, Config { server_mode: true, ..c }).len() == program(
            d,
            b,
            Config { server_mode: false, ..c },
        ).len() + 2 * d.len(),
        loop_head(Config { server_mode: true, ..c }) == loop_head(Config { server_mode: false, ..c }),
{
    crate::script::lemma_server_strokes_len(d, d.len() as int, c);
}

/// A lone polyline of at least `SPECK_MAX_POINTS` points is drawn as exactly
/// one stroke block, filtering or not, however close its ends are.
pub proof fn lemma_long_polyline_one_stroke(p: Seq<Point>, c: Config)
    requires
        p.len() >= SPECK_MAX_POINTS,
    ensures
        curated(seq![p], c.filter_specks) == seq![p],
        draw_loop(transform_doc(seq![p], c), c) == loop_head(c) + stroke(
            transform_polyline(p, c),
            origin(),
            c,
        ) + loop_tail(),
{
    crate::curate::lemma_long_polyline_kept(p, c.filter_specks);
    let n = transform_doc(seq![p], c);
    assert(n.len() == 1 && n[0] == transform_polyline(p, c));
    assert(strokes_upto(n, 0, c) == Seq::<Instr>::empty());
    assert(strokes_upto(n, 1, c) =~= stroke(transform_polyline(p, c), origin(), c));
}

/// Everything of the log before the stroke blocks.
pub open spec fn program_prefix(b: Bounds, c: Config) -> Seq<Instr> {
    header_spec(true, 1) + exit_spec() + box_spec(
        c.start_interval_ms,
        Point { x: b.min_x, y: b.min_y },
        Point { x: b.max_x, y: b.max_y },
    ) + loop_head(c)
}

proof fn lemma_prefix_depth(b: Bounds, c: Config)
    ensures
        depth_from(program_prefix(b, c), 0) == 1,
{
    let h = header_spec(true, 1);
    let x = exit_spec();
    let bx = box_spec(
        c.start_interval_ms,
        Point { x: b.min_x, y: b.min_y },
        Point { x: b.max_x, y: b.max_y },
    );
    let l = loop_head(c);
    assert(tab_free(h));
    assert(tab_free(x));
    lemma_tab_free(h, 0);
    lemma_tab_free(x, 0);
    assert(depth_from(bx, 0) == 0) by {
        reveal_with_fuel(depth_from, 22);
    }
    assert(depth_from(l, 0) == 1) by {
        reveal_with_fuel(depth_from, 11);
    }
    lemma_render_concat(h, x, 0);
    lemma_render_concat(h + x, bx, 0);
    lemma_render_concat(h + x + bx, l, 0);
}

/// The script of a document of one polyline `q` (in drawing space), cut into
/// the parts that surround the stroke block and the parts of the block, each
/// rendered one level deep; and the totals, added up the same way.
pub proof fn lemma_single_stroke_text(q: Seq<Point>, b: Bounds, c: Config)
    requires
        q.len() > 0,
    ensures
        render(program(seq![q], b, c)) == render(program_prefix(b, c)) + render_at(
            stroke_lead(q[0], origin(), c),
            1,
            0,
        ) + render_at(button_press(c.server_mode), 1, 0) + render_at(
            moves_upto(q, q.len() as int),
            1,
            0,
        ) + render_at(stroke_end(c), 1, 0) + render_at(loop_tail(), 1, 0),
        wait_total(program(seq![q], b, c)) == wait_total(program_prefix(b, c)) + wait_total(
            stroke_lead(q[0], origin(), c),
        ) + wait_total(button_press(c.server_mode)) + wait_total(moves_upto(q, q.len() as int))
            + wait_total(stroke_end(c)) + wait_total(loop_tail()),
        move_count(program(seq![q], b, c)) == move_count(program_prefix(b, c)) + move_count(
            stroke_lead(q[0], origin(), c),
        ) + move_count(button_press(c.server_mode)) + move_count(moves_upto(q, q.len() as int))
            + move_count(stroke_end(c)) + move_count(loop_tail()),
{
    let p = program_prefix(b, c);
    let l = stroke_lead(q[0], origin(), c);
    let bp = button_press(c.server_mode);
    let m = moves_upto(q, q.len() as int);
    let e = stroke_end(c);
    let t = loop_tail();
    let d = seq![q];
    assert(strokes_upto(d, 0, c) == Seq::<Instr>::empty());
    assert(strokes_upto(d, 1, c) =~= stroke(q, origin(), c));
    assert(program(d, b, c) =~= p + l + bp + m + e + t);
    lemma_prefix_depth(b, c);
    assert(tab_free(l));
    assert(tab_free(bp));
    lemma_moves_tab_free(q, q.len() as int);
    assert(tab_free(e));
    lemma_tab_free(l, 0);
    lemma_tab_free(bp, 0);
    lemma_tab_free(m, 0);
    lemma_tab_free(e, 0);
    lemma_render_concat(p, l, 0);
    lemma_render_concat(p + l, bp, 0);
    lemma_render_concat(p + l + bp, m, 0);
    lemma_render_concat(p + l + bp + m, e, 0);
    lemma_render_concat(p + l + bp + m + e, t, 0);
}

/// For a document of one polyline, server mode changes the script only in the
/// stroke block: two 150 ms waits around the button press, and a 200 ms wait
/// after the stroke in place of 40 ms. Everything before and after, the moves,
/// and the draw total are the same; the log is two instructions longer and the
/// waits add up to 460 ms more.
pub proof fn lemma_server_mode_text(q: Seq<Point>, b: Bounds, c: Config)
    requires
        q.len() > 0,
    ensures
        ({
            let cs = Config { server_mode: true, ..c };
            let cp = Config { server_mode: false, ..c };
            let before = render(program_prefix(b, c)) + render_at(
                stroke_lead(q[0], origin(), c),
                1,
                0,
            );
            let moves = render_at(moves_upto(q, q.len() as int), 1, 0);
            let after = render_at(loop_tail(), 1, 0);
            &&& render(program(seq![q], b, cs)) == before + (instr_line(
                Instr::Sleep(SERVER_PRESS_MS),
                1,
            ) + instr_line(Instr::MouseDown, 1) + instr_line(Instr::Sleep(SERVER_PRESS_MS), 1))
                + moves + (instr_line(Instr::CtrlUp, 1) + instr_line(Instr::MouseUp, 1) + instr_line(
                Instr::Sleep(SERVER_STROKE_GAP_MS),
                1,
            ) + instr_line(Instr::Line(seq![]), 1)) + after
            &&& render(program(seq![q], b, cp)) == before + instr_line(Instr::MouseDown, 1) + moves
                + (instr_line(Instr::CtrlUp, 1) + instr_line(Instr::MouseUp, 1) + instr_line(
                Instr::Sleep(SETTLE_MS),
                1,
            ) + instr_line(Instr::Line(seq![]), 1)) + after
            &&& program(seq![q], b, cs).len() == program(seq![q], b, cp).len() + 2
            &&& wait_total(program(seq![q], b, cs)) == wait_total(program(seq![q], b, cp)) + 2
                * SERVER_PRESS_MS + SERVER_STROKE_GAP_MS - SETTLE_MS
            &&& move_count(program(seq![q], b, cs)) == move_count(program(seq![q], b, cp))
        }),
{
    let cs = Config { server_mode: true, ..c };
    let cp = Config { server_mode: false, ..c };
    lemma_single_stroke_text(q, b, cs);
    lemma_single_stroke_text(q, b, cp);
    lemma_server_mode_count(seq![q], b, c);
    assert(program_prefix(b, cs) == program_prefix(b, c));
    assert(program_prefix(b, cp) == program_prefix(b, c));
    assert(stroke_lead(q[0], origin(), cs) == stroke_lead(q[0], origin(), c));
    assert(stroke_lead(q[0], origin(), cp) == stroke_lead(q[0], origin(), c));
    lemma_press_text();
    lemma_end_text(cs);
    lemma_end_text(cp);
}

proof fn lemma_press_text()
    ensures
        render_at(button_press(true), 1, 0) == instr_line(Instr::Sleep(SERVER_PRESS_MS), 1)
            + instr_line(Instr::MouseDown, 1) + instr_line(Instr::Sleep(SERVER_PRESS_MS), 1),
        render_at(button_press(false), 1, 0) == instr_line(Instr::MouseDown, 1),
        wait_total(button_press(true)) == 2 * SERVER_PRESS_MS,
        wait_total(button_press(false)) == 0,
        move_count(button_press(true)) == 0,
        move_count(button_press(false)) == 0,
{
    reveal_with_fuel(render_at, 4);
    reveal_with_fuel(waits_at, 4);
    reveal_with_fuel(moves_at, 4);
    let ps = button_press(true);
    assert(render_at(ps, 1, 0) =~= instr_line(ps[0], 1) + instr_line(ps[1], 1) + instr_line(ps[2], 1));
    let pp = button_press(false);
    assert(render_at(pp, 1, 0) =~= instr_line(pp[0], 1));
}

proof fn lemma_end_text(c: Config)
    ensures
        render_at(stroke_end(c), 1, 0) == instr_line(Instr::CtrlUp, 1) + instr_line(Instr::MouseUp, 1)
            + instr_line(
            Instr::Sleep(
                if c.server_mode {
                    SERVER_STROKE_GAP_MS
                } else {
                    SETTLE_MS
                },
            ),
            1,
        ) + instr_line(Instr::Line(seq![]), 1),
        wait_total(stroke_end(c)) == if c.server_mode {
            SERVER_STROKE_GAP_MS
        } else {
            SETTLE_MS
        },
        move_count(stroke_end(c)) == 0,
{
    reveal_with_fuel(render_at, 5);
    reveal_with_fuel(waits_at, 5);
    reveal_with_fuel(moves_at, 5);
    let e = stroke_end(c);
    assert(render_at(e, 1, 0) =~= instr_line(e[0], 1) + instr_line(e[1], 1) + instr_line(e[2], 1)
        + instr_line(e[3], 1));
}

/// `out` is the compilation of the curated document `d` (in source units).
pub open spec fn compiled_from(d: Seq<Seq<Point>>, c: Config, out: Compiled) -> bool {
    let n = transform_doc(d, c);
    let b = out.stats.bounds;
    let p = program(n, b, c);
    &&& is_bounds(n, b)
    &&& out.script@ == render(p)
    &&& out.stats.line_count == d.len()
    &&& out.stats.point_count == total_points(d)
    &&& out.stats.longest_line == longest(d)
    &&& out.stats.pause_ms == wait_total(p)
    &&& out.stats.draw_ms == MOVE_MS * move_count(p)
    &&& out.stats.width == b.max_x - b.min_x
    &&& out.stats.height == b.max_y - b.min_y
}

/// Whether a document can be compiled: no polyline is empty and every
/// coordinate is within `MAX_COORD`.
pub fn document_ok(doc: &Vec<Vec<Point>>) -> (r: bool)
    ensures
        r == source_doc_ok(doc_view(doc@)),
{
    let ghost d = doc_view(doc@);
    let mut i: usize = 0;
    while i < doc.len()
        invariant
            d == doc_view(doc@),
            i <= doc.len(),
            forall|a: int| 0 <= a < i ==> #[trigger] d[a].len() > 0,
            forall|a: int, b: int|
                0 <= a < i && 0 <= b < d[a].len() ==> #[trigger] within(d[a][b], MAX_COORD as int),
        decreases doc.len() - i,
    {
        let l = &doc[i];
        assert(l@ == d[i as int]);
        if l.len() == 0 {
            return false;
        }
        let mut j: usize = 0;
        while j < l.len()
            invariant
                d == doc_view(doc@),
                i < doc.len(),
                l@ == d[i as int],
                j <= l.len(),
                forall|b: int| 0 <= b < j ==> #[trigger] within(d[i as int][b], MAX_COORD as int),
            decreases l.len() - j,
        {
            let p = l[j];
            if p.x < -MAX_COORD || p.x > MAX_COORD || p.y < -MAX_COORD || p.y > MAX_COORD {
                assert(!within(d[i as int][j as int], MAX_COORD as int));
                return false;
            }
            j += 1;
        }
        i += 1;
    }
    true
}

impl Config {
    /// Whether scale and offsets are within their bounds.
    pub fn is_valid(&self) -> (r: bool)
        ensures
            r == self.wf(),
    {
        -crate::geometry::MAX_SCALE <= self.scale && self.scale <= crate::geometry::MAX_SCALE
            && -MAX_COORD <= self.x_offset && self.x_offset <= MAX_COORD && -MAX_COORD
            <= self.y_offset && self.y_offset <= MAX_COORD
    }
}

proof fn lemma_drawn_from_ok(a: Seq<Seq<Point>>, b: Seq<Seq<Point>>)
    requires
        drawn_from(a, b),
        source_doc_ok(b),
    ensures
        source_doc_ok(a),
{
    assert forall|i: int| 0 <= i < a.len() implies #[trigger] a[i].len() > 0 by {
        let j = choose|j: int| 0 <= j < b.len() && a[i] == b[j];
        assert(b[j].len() > 0);
    }
    assert forall|i: int, k: int| 0 <= i < a.len() && 0 <= k < a[i].len() implies #[trigger] within(
        a[i][k],
        MAX_COORD as int,
    ) by {
        let j = choose|j: int| 0 <= j < b.len() && a[i] == b[j];
        assert(within(b[j][k], MAX_COORD as int));
    }
}

proof fn lemma_ok_vec_level(v: Seq<Vec<Point>>, lim: int)
    requires
        doc_within(doc_view(v), lim),
    ensures
        forall|i: int, j: int|
            0 <= i < v.len() && 0 <= j < v[i]@.len() ==> #[trigger] within(v[i]@[j], lim),
{
    assert forall|i: int, j: int| 0 <= i < v.len() && 0 <= j < v[i]@.len() implies #[trigger] within(
        v[i]@[j],
        lim,
    ) by {
        assert(doc_view(v)[i] == v[i]@);
        assert(within(doc_view(v)[i][j], lim));
    }
}

/// Puts a document in its curated order: specks removed when the
/// configuration asks for it, sorted, then interleaved.
pub fn curate(doc: Vec<Vec<Point>>, c: &Config) -> (r: Vec<Vec<Point>>)
    requires
        source_doc_ok(doc_view(doc@)),
    ensures
        doc_view(r@) == curated(doc_view(doc@), c.filter_specks),
        source_doc_ok(doc_view(r@)),
{
    let ghost d = doc_view(doc@);
    proof {
        assert forall|i: int, j: int| 0 <= i < d.len() && 0 <= j < d[i].len() implies #[trigger] within(
            d[i][j],
            MAX_DRAW as int,
        ) by {
            assert(within(d[i][j], MAX_COORD as int));
        }
        lemma_ok_vec_level(doc@, MAX_DRAW as int);
    }
    let mut v = if c.filter_specks {
        filter_specks(doc)
    } else {
        doc
    };
    let ghost f = if c.filter_specks {
        without_specks(d)
    } else {
        d
    };
    assert(doc_view(v@) == f);
    proof {
        if c.filter_specks {
            crate::curate::lemma_without_specks_from(d);
            lemma_drawn_from_ok(f, d);
        }
        assert(doc_within(f, MAX_DRAW as int)) by {
            assert forall|i: int, j: int| 0 <= i < f.len() && 0 <= j < f[i].len() implies #[trigger] within(
                f[i][j],
                MAX_DRAW as int,
            ) by {
                assert(within(f[i][j], MAX_COORD as int));
            }
        }
        lemma_ok_vec_level(v@, MAX_DRAW as int);
        assert forall|i: int| 0 <= i < f.len() implies #[trigger] f[i].len() > 0 by {}
    }
    sort_polylines(&mut v);
    let r = interleave(v);
    proof {
        assert(doc_view(r@) =~= interleaved(sorted_by_key(f)));
        lemma_curated_from(d, c.filter_specks);
        lemma_drawn_from_ok(doc_view(r@), d);
    }
    r
}

/// The number of points of all polylines, and the length of the longest.
fn count_points(doc: &Vec<Vec<Point>>) -> (r: (u128, usize))
    ensures
        r.0 == total_points(doc_view(doc@)),
        r.1 == longest(doc_view(doc@)),
{
    let ghost d = doc_view(doc@);
    let mut total: u128 = 0;
    let mut most: usize = 0;
    let mut i: usize = 0;
    while i < doc.len()
        invariant
            d == doc_view(doc@),
            i <= doc.len(),
            total == total_points(d.take(i as int)),
            most == longest(d.take(i as int)),
            total <= i * 0xffff_ffff_ffff_ffff,
        decreases doc.len() - i,
    {
        let n = doc[i].len();
        assert(d.take(i + 1).drop_last() =~= d.take(i as int));
        assert(d.take(i + 1).last() == doc@[i as int]@);
        total = total + n as u128;
        if n > most {
            most = n;
        }
        i += 1;
    }
    assert(d.take(doc.len() as int) =~= d);
    (total, most)
}

/// Compiles a document whose polylines are already in the order to draw
/// them: the script, and its figures. Fails when the document is empty.
pub fn compile_curated(doc: &Vec<Vec<Point>>, c: &Config) -> (r: Result<Compiled, CompileError>)
    requires
        source_doc_ok(doc_view(doc@)),
        c.wf(),
    ensures
        r is Err <==> doc@.len() == 0,
        r matches Ok(out) ==> compiled_from(doc_view(doc@), *c, out),
{
    let ghost d = doc_view(doc@);
    if doc.len() == 0 {
        return Err(CompileError::EmptyDocument);
    }
    let (point_count, longest_line) = count_points(doc);
    let norm = normalize(doc, c);
    let ghost n = doc_view(norm@);
    assert(n == transform_doc(d, *c));
    assert(n[0].len() == d[0].len());
    assert(has_points(n));
    let b = match bounds(&norm) {
        Ok(b) => b,
        Err(_) => {
            return Err(CompileError::EmptyDocument);
        },
    };
    proof {
        let (i, j) = choose|i: int, j: int| is_point(n, i, j) && (#[trigger] n[i][j]).x == b.min_x;
        assert(within(n[i][j], MAX_DRAW as int));
        let (i, j) = choose|i: int, j: int| is_point(n, i, j) && (#[trigger] n[i][j]).x == b.max_x;
        assert(within(n[i][j], MAX_DRAW as int));
        let (i, j) = choose|i: int, j: int| is_point(n, i, j) && (#[trigger] n[i][j]).y == b.min_y;
        assert(within(n[i][j], MAX_DRAW as int));
        let (i, j) = choose|i: int, j: int| is_point(n, i, j) && (#[trigger] n[i][j]).y == b.max_y;
        assert(within(n[i][j], MAX_DRAW as int));
        lemma_ok_vec_level(norm@, MAX_DRAW as int);
        assert forall|i: int| 0 <= i < norm@.len() implies #[trigger] norm@[i]@.len() > 0 by {
            assert(n[i] == norm@[i]@);
            assert(d[i].len() > 0);
        }
    }
    let mut code = AhkCode::new(true, 1);
    code.add_exit();
    code.add_box(c.start_interval_ms, Point { x: b.min_x, y: b.min_y }, Point { x: b.max_x, y: b.max_y });
    code.add_draw_loop(&norm, c);
    let (script, draw_ms, pause_ms) = code.build();
    let stats = Stats {
        line_count: doc.len(),
        point_count,
        longest_line,
        pause_ms,
        draw_ms,
        bounds: b,
        width: b.max_x - b.min_x,
        height: b.max_y - b.min_y,
    };
    Ok(Compiled { script, stats })
}

/// Curates a document (in source units) and compiles it. Fails when no
/// polyline is left after curation.
pub fn compile(doc: Vec<Vec<Point>>, c: &Config) -> (r: Result<Compiled, CompileError>)
    requires
        source_doc_ok(doc_view(doc@)),
        c.wf(),
    ensures
        r is Err <==> curated(doc_view(doc@), c.filter_specks).len() == 0,
        r matches Ok(out) ==> compiled_from(curated(doc_view(doc@), c.filter_specks), *c, out),
{
    let curated_doc = curate(doc, c);
    compile_curated(&curated_doc, c)
}

} // verus!
