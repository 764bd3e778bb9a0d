//! The instruction log, its builders, and the renderer that turns it into a
//! script with its duration totals.
use crate::curate::manhattan_exec;
use crate::geometry::{doc_view, manhattan, within, Config, Point, MAX_DRAW, UNIT};
use crate::text::{fixed_text, nat_text, push_fixed, push_nat};
use vstd::prelude::*;
use vstd::string::*;

verus! {

/// What an instruction means: the model of [`CodeEmital`].
pub enum Instr {
    TabIn,
    TabOut,
    Line(Seq<char>),
    MouseMove(i64, i64),
    Sleep(u32),
    CtrlDown,
    CtrlUp,
    MouseDown,
    MouseUp,
}

/// One instruction of the log.
pub enum CodeEmital {
    /// Indent the following lines one level deeper.
    TabIn,
    /// Indent the following lines one level less.
    TabOut,
    /// A line of raw text.
    EmitLine(String),
    /// Move the pointer to a point, each coordinate in sub-units.
    MouseMove(i64, i64),
    /// Wait for a number of milliseconds.
    Sleep(u32),
    /// Press the modifier key.
    CtrlDown,
    /// Release the modifier key.
    CtrlUp,
    /// Press the button.
    MouseDown,
    /// Release the button.
    MouseUp,
}

impl View for CodeEmital {
    type V = Instr;

    open spec fn view(&self) -> Instr {
        match self {
            CodeEmital::TabIn => Instr::TabIn,
            CodeEmital::TabOut => Instr::TabOut,
            CodeEmital::EmitLine(s) => Instr::Line(s@),
            CodeEmital::MouseMove(x, y) => Instr::MouseMove(*x, *y),
            CodeEmital::Sleep(t) => Instr::Sleep(*t),
            CodeEmital::CtrlDown => Instr::CtrlDown,
            CodeEmital::CtrlUp => Instr::CtrlUp,
            CodeEmital::MouseDown => Instr::MouseDown,
            CodeEmital::MouseUp => Instr::MouseUp,
        }
    }
}

/// The change of indentation that an instruction makes.
pub open spec fn delta(i: Instr) -> int {
    match i {
        Instr::TabIn => 1,
        Instr::TabOut => -1,
        _ => 0,
    }
}

/// The net change of indentation of `s` from position `k` on.
pub open spec fn depth_from(s: Seq<Instr>, k: int) -> int
    decreases s.len() - k,
{
    if k < 0 || k >= s.len() {
        0
    } else {
        delta(s[k]) + depth_from(s, k + 1)
    }
}

/// Starting at depth `d` at position `k`, the depth never goes below zero.
pub open spec fn ok_at(s: Seq<Instr>, d: int, k: int) -> bool
    decreases s.len() - k,
{
    if k < 0 || k >= s.len() {
        true
    } else {
        d + delta(s[k]) >= 0 && ok_at(s, d + delta(s[k]), k + 1)
    }
}

/// Along the whole log, the indentation never goes below zero.
pub open spec fn indent_ok(s: Seq<Instr>) -> bool {
    ok_at(s, 0, 0)
}

/// No instruction of `s` changes the indentation.
pub open spec fn tab_free(s: Seq<Instr>) -> bool {
    forall|k: int| 0 <= k < s.len() ==> delta(#[trigger] s[k]) == 0
}

/// Milliseconds of drawing that one pointer move is estimated to take.
pub const MOVE_MS: u128 = 30;

/// The number of pointer moves of `s` from position `k` on.
pub open spec fn moves_at(s: Seq<Instr>, k: int) -> nat
    decreases s.len() - k,
{
    if k < 0 || k >= s.len() {
        0
    } else {
        (if s[k] is MouseMove {
            1nat
        } else {
            0nat
        }) + moves_at(s, k + 1)
    }
}

/// The sum of the waits of `s` from position `k` on, in milliseconds.
pub open spec fn waits_at(s: Seq<Instr>, k: int) -> nat
    decreases s.len() - k,
{
    if k < 0 || k >= s.len() {
        0
    } else {
        (match s[k] {
            Instr::Sleep(t) => t as nat,
            _ => 0nat,
        }) + waits_at(s, k + 1)
    }
}

/// The number of pointer moves of a log.
pub open spec fn move_count(s: Seq<Instr>) -> nat {
    moves_at(s, 0)
}

/// The sum of all waits of a log, in milliseconds.
pub open spec fn wait_total(s: Seq<Instr>) -> nat {
    waits_at(s, 0)
}

/// Four spaces for each level.
pub open spec fn indent(d: nat) -> Seq<char>
    decreases d,
{
    if d == 0 {
        seq![]
    } else {
        indent((d - 1) as nat) + seq![' ', ' ', ' ', ' ']
    }
}

/// The text of an instruction's line, without indentation and newline.
pub open spec fn instr_text(i: Instr) -> Seq<char> {
    match i {
        Instr::Line(s) => s,
        Instr::MouseMove(x, y) => "MouseMove, "@ + fixed_text(x as int) + ", "@ + fixed_text(
            y as int,
        ),
        Instr::Sleep(t) => "Sleep, "@ + nat_text(t as nat),
        Instr::CtrlDown => "Send {Ctrl down}"@,
        Instr::CtrlUp => "Send {Ctrl up}"@,
        Instr::MouseDown => "Send {lbutton down}"@,
        Instr::MouseUp => "Send {lbutton up}"@,
        _ => seq![],
    }
}

/// What an instruction adds to the script at depth `d`: nothing for a change
/// of indentation, else one indented line.
pub open spec fn instr_line(i: Instr, d: int) -> Seq<char> {
    match i {
        Instr::TabIn => seq![],
        Instr::TabOut => seq![],
        _ => indent(d as nat) + instr_text(i) + seq!['\n'],
    }
}

/// The script text of `s` from position `k` on, starting at depth `d`.
pub open spec fn render_at(s: Seq<Instr>, d: int, k: int) -> Seq<char>
    decreases s.len() - k,
{
    if k < 0 || k >= s.len() {
        seq![]
    } else {
        instr_line(s[k], d) + render_at(s, d + delta(s[k]), k + 1)
    }
}

/// The script text of a log.
pub open spec fn render(s: Seq<Instr>) -> Seq<char> {
    render_at(s, 0, 0)
}

proof fn lemma_depth_shift(a: Seq<Instr>, b: Seq<Instr>, j: int)
    requires
        0 <= j <= b.len(),
    ensures
        depth_from(a + b, a.len() + j) == depth_from(b, j),
        forall|d: int| #[trigger] ok_at(a + b, d, a.len() + j) == ok_at(b, d, j),
    decreases b.len() - j,
{
    if j < b.len() {
        lemma_depth_shift(a, b, j + 1);
        assert((a + b)[a.len() + j] == b[j]);
        assert forall|d: int| #[trigger] ok_at(a + b, d, a.len() + j) == ok_at(b, d, j) by {
            assert(ok_at(a + b, d + delta(b[j]), a.len() + j + 1) == ok_at(b, d + delta(b[j]), j + 1));
        }
    }
}

proof fn lemma_concat_at(a: Seq<Instr>, b: Seq<Instr>, k: int)
    requires
        0 <= k <= a.len(),
    ensures
        depth_from(a + b, k) == depth_from(a, k) + depth_from(b, 0),
        forall|d: int|
            #[trigger] ok_at(a + b, d, k) == (ok_at(a, d, k) && ok_at(b, d + depth_from(a, k), 0)),
    decreases a.len() - k,
{
    if k == a.len() {
        lemma_depth_shift(a, b, 0);
        assert forall|d: int|
            #[trigger] ok_at(a + b, d, k) == (ok_at(a, d, k) && ok_at(b, d + depth_from(a, k), 0)) by {
            assert(ok_at(a + b, d, a.len() + 0int) == ok_at(b, d, 0));
        }
    } else {
        lemma_concat_at(a, b, k + 1);
        assert((a + b)[k] == a[k]);
        assert forall|d: int|
            #[trigger] ok_at(a + b, d, k) == (ok_at(a, d, k) && ok_at(b, d + depth_from(a, k), 0)) by {
            let e = d + delta(a[k]);
            assert(ok_at(a + b, e, k + 1) == (ok_at(a, e, k + 1) && ok_at(b, e + depth_from(a, k + 1), 0)));
        }
    }
}

proof fn lemma_render_shift(a: Seq<Instr>, b: Seq<Instr>, j: int)
    requires
        0 <= j <= b.len(),
    ensures
        forall|d: int| #[trigger] render_at(a + b, d, a.len() + j) == render_at(b, d, j),
        moves_at(a + b, a.len() + j) == moves_at(b, j),
        waits_at(a + b, a.len() + j) == waits_at(b, j),
    decreases b.len() - j,
{
    if j < b.len() {
        lemma_render_shift(a, b, j + 1);
        assert((a + b)[a.len() + j] == b[j]);
        assert forall|d: int| #[trigger] render_at(a + b, d, a.len() + j) == render_at(b, d, j) by {
            assert(render_at(a + b, d + delta(b[j]), a.len() + j + 1) == render_at(
                b,
                d + delta(b[j]),
                j + 1,
            ));
        }
    }
}

proof fn lemma_render_concat_at(a: Seq<Instr>, b: Seq<Instr>, k: int)
    requires
        0 <= k <= a.len(),
    ensures
        forall|d: int|
            #[trigger] render_at(a + b, d, k) == render_at(a, d, k) + render_at(
                b,
                d + depth_from(a, k),
                0,
            ),
        moves_at(a + b, k) == moves_at(a, k) + moves_at(b, 0),
        waits_at(a + b, k) == waits_at(a, k) + waits_at(b, 0),
    decreases a.len() - k,
{
    if k == a.len() {
        lemma_render_shift(a, b, 0);
        assert forall|d: int|
            #[trigger] render_at(a + b, d, k) == render_at(a, d, k) + render_at(
                b,
                d + depth_from(a, k),
                0,
            ) by {
            assert(render_at(a + b, d, a.len() + 0int) == render_at(b, d, 0));
            assert(render_at(a, d, k) == Seq::<char>::empty());
            assert(Seq::<char>::empty() + render_at(b, d, 0) =~= render_at(b, d, 0));
        }
    } else {
        lemma_render_concat_at(a, b, k + 1);
        assert((a + b)[k] == a[k]);
        assert forall|d: int|
            #[trigger] render_at(a + b, d, k) == render_at(a, d, k) + render_at(
                b,
                d + depth_from(a, k),
                0,
            ) by {
            let e = d + delta(a[k]);
            assert(render_at(a + b, e, k + 1) == render_at(a, e, k + 1) + render_at(
                b,
                e + depth_from(a, k + 1),
                0,
            ));
            assert(instr_line(a[k], d) + (render_at(a, e, k + 1) + render_at(
                b,
                e + depth_from(a, k + 1),
                0,
            )) =~= instr_line(a[k], d) + render_at(a, e, k + 1) + render_at(
                b,
                e + depth_from(a, k + 1),
                0,
            ));
        }
    }
}

/// Rendering and the totals along a concatenation: the text of the second
/// part is indented from the depth where the first part ends, and the totals
/// add up.
pub proof fn lemma_render_concat(a: Seq<Instr>, b: Seq<Instr>, d: int)
    ensures
        render_at(a + b, d, 0) == render_at(a, d, 0) + render_at(b, d + depth_from(a, 0), 0),
        move_count(a + b) == move_count(a) + move_count(b),
        wait_total(a + b) == wait_total(a) + wait_total(b),
        depth_from(a + b, 0) == depth_from(a, 0) + depth_from(b, 0),
{
    lemma_render_concat_at(a, b, 0);
    lemma_concat(a, b, d);
}

/// Indentation along a concatenation: the depths add up, and the whole stays
/// non-negative when each part does from where it starts.
pub proof fn lemma_concat(a: Seq<Instr>, b: Seq<Instr>, d: int)
    ensures
        depth_from(a + b, 0) == depth_from(a, 0) + depth_from(b, 0),
        ok_at(a + b, d, 0) == (ok_at(a, d, 0) && ok_at(b, d + depth_from(a, 0), 0)),
{
    lemma_concat_at(a, b, 0);
}

proof fn lemma_tab_free_at(s: Seq<Instr>, d: int, k: int)
    requires
        tab_free(s),
        d >= 0,
        0 <= k <= s.len(),
    ensures
        depth_from(s, k) == 0,
        ok_at(s, d, k),
    decreases s.len() - k,
{
    if k < s.len() {
        assert(delta(s[k]) == 0);
        lemma_tab_free_at(s, d, k + 1);
    }
}

/// A log without changes of indentation stays at the depth it starts at.
pub proof fn lemma_tab_free(s: Seq<Instr>, d: int)
    requires
        tab_free(s),
        d >= 0,
    ensures
        depth_from(s, 0) == 0,
        ok_at(s, d, 0),
{
    lemma_tab_free_at(s, d, 0);
}

proof fn lemma_ok_depth_at(s: Seq<Instr>, d: int, k: int)
    requires
        ok_at(s, d, k),
        d >= 0,
        0 <= k <= s.len(),
    ensures
        d + depth_from(s, k) >= 0,
    decreases s.len() - k,
{
    if k < s.len() {
        lemma_ok_depth_at(s, d + delta(s[k]), k + 1);
    }
}

/// Appending a part that stays non-negative from any depth and changes the
/// depth by nothing keeps a well-indented log well indented.
pub proof fn lemma_append_balanced(a: Seq<Instr>, b: Seq<Instr>)
    requires
        indent_ok(a),
        forall|d: int| d >= 0 ==> #[trigger] ok_at(b, d, 0),
        depth_from(b, 0) == 0,
    ensures
        indent_ok(a + b),
        depth_from(a + b, 0) == depth_from(a, 0),
{
    lemma_ok_depth_at(a, 0, 0);
    lemma_concat(a, b, 0);
    assert(ok_at(b, depth_from(a, 0), 0));
}

/// An append-only log of instructions, rendered once into a script.
pub struct AhkCode {
    code: Vec<CodeEmital>,
}

impl View for AhkCode {
    type V = Seq<Instr>;

    closed spec fn view(&self) -> Seq<Instr> {
        self.code@.map_values(|c: CodeEmital| c@)
    }
}

/// The header lines: single instance (when asked), screen coordinates and the
/// default pointer speed.
pub open spec fn header_spec(force_single: bool, default_speed: u32) -> Seq<Instr> {
    (if force_single {
        seq![Instr::Line("#SingleInstance Force"@)]
    } else {
        seq![]
    }) + seq![
        Instr::Line("CoordMode, Mouse, Screen"@),
        Instr::Line("SetDefaultMouseSpeed, "@ + nat_text(default_speed as nat)),
    ]
}

/// The hot-key that ends the script.
pub open spec fn exit_spec() -> Seq<Instr> {
    seq![Instr::Line("Escape::"@), Instr::Line("ExitApp"@), Instr::Line("Return"@)]
}

/// Wait after each corner of the calibration box.
pub const BOX_WAIT_MS: u32 = 200;

/// The calibration routine: wait, then trace the rectangle from `min` to
/// `max` corner by corner with the button held, then release the button and
/// the modifier, in that order.
pub open spec fn box_spec(pause: u32, min: Point, max: Point) -> Seq<Instr> {
    seq![
        Instr::Line("^b::Box()"@),
        Instr::Line("Box() {"@),
        Instr::TabIn,
        Instr::Sleep(pause),
        Instr::CtrlDown,
        Instr::MouseMove(min.x, min.y),
        Instr::Sleep(BOX_WAIT_MS),
        Instr::MouseDown,
        Instr::MouseMove(min.x, max.y),
        Instr::Sleep(BOX_WAIT_MS),
        Instr::MouseMove(max.x, max.y),
        Instr::Sleep(BOX_WAIT_MS),
        Instr::MouseMove(max.x, min.y),
        Instr::Sleep(BOX_WAIT_MS),
        Instr::MouseMove(min.x, min.y),
        Instr::Sleep(BOX_WAIT_MS),
        Instr::MouseUp,
        Instr::CtrlUp,
        Instr::Line("return"@),
        Instr::TabOut,
        Instr::Line("}"@),
    ]
}

/// Settle wait after a stroke's first move, after a long segment, and
/// between strokes.
pub const SETTLE_MS: u32 = 40;

/// Each of the two waits around the button press in server mode.
pub const SERVER_PRESS_MS: u32 = 150;

/// Wait between strokes in server mode.
pub const SERVER_STROKE_GAP_MS: u32 = 200;

/// A segment longer than this (Manhattan, in sub-units) is followed by a
/// settle wait.
pub const STRAIGHT_MIN: i64 = 15 * UNIT;

/// Where the running last drawn point starts.
pub open spec fn origin() -> Point {
    Point { x: 0, y: 0 }
}

/// The start of a stroke: press the modifier, move to the first point, settle,
/// pause when the stroke starts near the last drawn point, press the button
/// (slowly in server mode).
pub open spec fn stroke_start(p: Point, last: Point, c: Config) -> Seq<Instr> {
    stroke_lead(p, last, c) + button_press(c.server_mode)
}

/// Press the modifier, move to the first point, settle, and pause when the
/// stroke starts near the last drawn point.
pub open spec fn stroke_lead(p: Point, last: Point, c: Config) -> Seq<Instr> {
    seq![Instr::CtrlDown, Instr::MouseMove(p.x, p.y), Instr::Sleep(SETTLE_MS)] + (if manhattan(
        last,
        p,
    ) < c.proximity {
        seq![Instr::Sleep(c.pause_ms)]
    } else {
        seq![]
    })
}

/// Press the button: in server mode with a wait before and after.
pub open spec fn button_press(server_mode: bool) -> Seq<Instr> {
    if server_mode {
        seq![Instr::Sleep(SERVER_PRESS_MS), Instr::MouseDown, Instr::Sleep(SERVER_PRESS_MS)]
    } else {
        seq![Instr::MouseDown]
    }
}

/// A move from `a` to `b` inside a stroke, with a settle wait after a long one.
pub open spec fn segment(a: Point, b: Point) -> Seq<Instr> {
    seq![Instr::MouseMove(b.x, b.y)] + (if manhattan(a, b) > STRAIGHT_MIN {
        seq![Instr::Sleep(SETTLE_MS)]
    } else {
        seq![]
    })
}

/// The moves to the points `1 .. k` of a polyline.
pub open spec fn moves_upto(l: Seq<Point>, k: int) -> Seq<Instr>
    decreases k,
{
    if k <= 1 {
        seq![]
    } else {
        moves_upto(l, k - 1) + segment(l[k - 2], l[k - 1])
    }
}

/// The end of a stroke: release modifier and button, wait, blank line.
pub open spec fn stroke_end(c: Config) -> Seq<Instr> {
    seq![
        Instr::CtrlUp,
        Instr::MouseUp,
        Instr::Sleep(
            if c.server_mode {
                SERVER_STROKE_GAP_MS
            } else {
                SETTLE_MS
            },
        ),
        Instr::Line(seq![]),
    ]
}

/// The stroke block of a polyline, when the last drawn point is `last`.
pub open spec fn stroke(l: Seq<Point>, last: Point, c: Config) -> Seq<Instr> {
    stroke_start(l[0], last, c) + moves_upto(l, l.len() as int) + stroke_end(c)
}

/// The last drawn point before polyline `i` of the document.
pub open spec fn last_before(d: Seq<Seq<Point>>, i: int) -> Point {
    if i <= 0 {
        origin()
    } else {
        d[i - 1].last()
    }
}

/// The stroke blocks of the first `n` polylines.
pub open spec fn strokes_upto(d: Seq<Seq<Point>>, n: int, c: Config) -> Seq<Instr>
    decreases n,
{
    if n <= 0 {
        seq![]
    } else {
        strokes_upto(d, n - 1, c) + stroke(d[n - 1], last_before(d, n - 1), c)
    }
}

/// The opening of the drawing loop: its hot-key, the toggle, the guard that
/// leaves the loop, and the wait before drawing.
pub open spec fn loop_head(c: Config) -> Seq<Instr> {
    seq![
        Instr::Line("^z::"@),
        Instr::Line("Toggle := !Toggle"@),
        Instr::Line("Loop"@),
        Instr::Line("{"@),
        Instr::TabIn,
        Instr::Line("If (!Toggle)"@),
        Instr::TabIn,
        Instr::Line("Break"@),
        Instr::TabOut,
        Instr::Sleep(c.start_interval_ms),
    ]
}

/// The close of the drawing loop: button up for safety, then exit.
pub open spec fn loop_tail() -> Seq<Instr> {
    seq![Instr::MouseUp, Instr::Line("Exit, 0"@), Instr::TabOut, Instr::Line("}"@)]
}

/// The drawing loop over a document in drawing space.
pub open spec fn draw_loop(d: Seq<Seq<Point>>, c: Config) -> Seq<Instr> {
    loop_head(c) + strokes_upto(d, d.len() as int, c) + loop_tail()
}

/// Server mode adds two instructions to each stroke block: the waits around
/// the button press.
pub proof fn lemma_server_strokes_len(d: Seq<Seq<Point>>, n: int, c: Config)
    requires
        0 <= n,
    ensures
        strokes_upto(d, n, Config { server_mode: true, ..c }).len() == strokes_upto(
            d,
            n,
            Config { server_mode: false, ..c },
        ).len() + 2 * n,
    decreases n,
{
    if n > 0 {
        lemma_server_strokes_len(d, n - 1, c);
    }
}

proof fn lemma_strokes_tab_free(d: Seq<Seq<Point>>, n: int, c: Config)
    ensures
        tab_free(strokes_upto(d, n, c)),
    decreases n,
{
    if n > 0 {
        lemma_strokes_tab_free(d, n - 1, c);
        let l = d[n - 1];
        lemma_moves_tab_free(l, l.len() as int);
        let st = stroke(l, last_before(d, n - 1), c);
        assert(tab_free(st));
        let a = strokes_upto(d, n - 1, c);
        assert forall|k: int| 0 <= k < (a + st).len() implies delta(#[trigger] (a + st)[k]) == 0 by {
            if k < a.len() {
                assert((a + st)[k] == a[k]);
            } else {
                assert((a + st)[k] == st[k - a.len()]);
            }
        }
    }
}

pub proof fn lemma_moves_tab_free(l: Seq<Point>, k: int)
    ensures
        tab_free(moves_upto(l, k)),
    decreases k,
{
    if k > 1 {
        lemma_moves_tab_free(l, k - 1);
        let a = moves_upto(l, k - 1);
        let b = segment(l[k - 2], l[k - 1]);
        assert forall|j: int| 0 <= j < (a + b).len() implies delta(#[trigger] (a + b)[j]) == 0 by {
            if j < a.len() {
                assert((a + b)[j] == a[j]);
            } else {
                assert((a + b)[j] == b[j - a.len()]);
            }
        }
    }
}

/// Appends four spaces for each level.
fn push_indent(out: &mut String, d: usize)
    ensures
        final(out)@ == old(out)@ + indent(d as nat),
{
    let mut i: usize = 0;
    while i < d
        invariant
            i <= d,
            out@ == old(out)@ + indent(i as nat),
        decreases d - i,
    {
        let ghost prev = out@;
        out.append("    ");
        proof {
            reveal_strlit("    ");
            assert("    "@ =~= seq![' ', ' ', ' ', ' ']);
            assert(indent((i + 1) as nat) == indent(i as nat) + seq![' ', ' ', ' ', ' ']);
        }
        i += 1;
        assert(out@ =~= old(out)@ + indent(i as nat));
    }
}

/// Appends the text of an instruction that is not a change of indentation.
fn push_text(out: &mut String, c: &CodeEmital)
    ensures
        final(out)@ == old(out)@ + instr_text(c@),
{
    match c {
        CodeEmital::EmitLine(t) => {
            out.append(t.as_str());
        },
        CodeEmital::MouseMove(x, y) => {
            out.append("MouseMove, ");
            push_fixed(out, *x);
            out.append(", ");
            push_fixed(out, *y);
            assert(out@ =~= old(out)@ + instr_text(c@));
        },
        CodeEmital::Sleep(t) => {
            out.append("Sleep, ");
            push_nat(out, *t as u128);
            assert(out@ =~= old(out)@ + instr_text(c@));
        },
        CodeEmital::CtrlDown => {
            out.append("Send {Ctrl down}");
        },
        CodeEmital::CtrlUp => {
            out.append("Send {Ctrl up}");
        },
        CodeEmital::MouseDown => {
            out.append("Send {lbutton down}");
        },
        CodeEmital::MouseUp => {
            out.append("Send {lbutton up}");
        },
        _ => {
            assert(old(out)@ + instr_text(c@) =~= old(out)@);
        },
    }
}

impl AhkCode {
    /// Renders the log into the script text, with the estimated drawing time
    /// (`MOVE_MS` for each pointer move) and the sum of all waits, both in
    /// milliseconds.
    pub fn build(&self) -> (r: (String, u128, u128))
        requires
            self.wf(),
        ensures
            r.0@ == render(self@),
            r.1 == MOVE_MS * move_count(self@),
            r.2 == wait_total(self@),
    {
        proof {
            reveal_strlit("\n");
        }
        let ghost s = self@;
        let mut code = String::new();
        let mut depth: usize = 0;
        let mut moves: u128 = 0;
        let mut pause: u128 = 0;
        let mut k: usize = 0;
        assert(code@ + render_at(s, 0, 0) =~= render(s));
        while k < self.code.len()
            invariant
                s == self@,
                s.len() == self.code@.len(),
                k <= self.code@.len(),
                depth <= k,
                code@ + render_at(s, depth as int, k as int) == render(s),
                ok_at(s, depth as int, k as int),
                moves + moves_at(s, k as int) == move_count(s),
                pause + waits_at(s, k as int) == wait_total(s),
                moves <= k,
                pause <= k * 0xffff_ffff,
            decreases self.code@.len() - k,
        {
            let c = &self.code[k];
            assert(s[k as int] == c@);
            let ghost before = code@;
            match c {
                CodeEmital::TabIn => {
                    depth += 1;
                },
                CodeEmital::TabOut => {
                    depth -= 1;
                },
                _ => {
                    push_indent(&mut code, depth);
                    push_text(&mut code, c);
                    code.append("\n");
                    proof {
                        reveal_strlit("\n");
                        assert("\n"@ =~= seq!['\n']);
                    }
                    assert(delta(s[k as int]) == 0);
                    assert(!(s[k as int] is TabIn) && !(s[k as int] is TabOut));
                    assert(code@ =~= before + instr_line(s[k as int], depth as int));
                },
            }
            match c {
                CodeEmital::MouseMove(_, _) => {
                    moves += 1;
                },
                CodeEmital::Sleep(t) => {
                    pause += *t as u128;
                },
                _ => {},
            }
            assert(code@ =~= before + instr_line(s[k as int], depth - delta(s[k as int])));
            k += 1;
            proof {
                assert(code@ + render_at(s, depth as int, k as int) =~= render(s));
            }
        }
        (code, MOVE_MS * moves, pause)
    }

    /// The indentation of the log never goes below zero.
    pub open spec fn wf(&self) -> bool {
        indent_ok(self@)
    }

    fn push(&mut self, c: CodeEmital)
        ensures
            final(self)@ == old(self)@.push(c@),
    {
        self.code.push(c);
        assert(self@ =~= old(self)@.push(c@));
    }

    fn push_line(&mut self, s: &str)
        ensures
            final(self)@ == old(self)@.push(Instr::Line(s@)),
    {
        self.push(CodeEmital::EmitLine(s.to_owned()));
    }

    /// A log holding the header lines. The pointer speed is at most 100.
    pub fn new(force_single: bool, default_speed: u32) -> (r: AhkCode)
        requires
            default_speed <= 100,
        ensures
            r@ == header_spec(force_single, default_speed),
            r.wf(),
    {
        let mut r = AhkCode { code: Vec::new() };
        assert(r@ =~= seq![]);
        if force_single {
            r.push_line("#SingleInstance Force");
        }
        r.push_line("CoordMode, Mouse, Screen");
        let mut speed = "SetDefaultMouseSpeed, ".to_owned();
        push_nat(&mut speed, default_speed as u128);
        r.push(CodeEmital::EmitLine(speed));
        assert(r@ =~= header_spec(force_single, default_speed));
        proof {
            assert(tab_free(r@));
            lemma_tab_free(r@, 0);
        }
        r
    }

    /// Appends the hot-key that ends the script.
    pub fn add_exit(&mut self)
        requires
            old(self).wf(),
        ensures
            final(self)@ == old(self)@ + exit_spec(),
            final(self).wf(),
    {
        self.push_line("Escape::");
        self.push_line("ExitApp");
        self.push_line("Return");
        assert(self@ =~= old(self)@ + exit_spec());
        proof {
            assert(tab_free(exit_spec()));
            assert forall|d: int| d >= 0 implies #[trigger] ok_at(exit_spec(), d, 0) by {
                lemma_tab_free(exit_spec(), d);
            }
            lemma_tab_free(exit_spec(), 0);
            lemma_append_balanced(old(self)@, exit_spec());
        }
    }

    /// Appends the calibration routine for the rectangle from `min` to `max`.
    pub fn add_box(&mut self, pause: u32, min: Point, max: Point)
        requires
            old(self).wf(),
        ensures
            final(self)@ == old(self)@ + box_spec(pause, min, max),
            final(self).wf(),
    {
        self.push_line("^b::Box()");
        self.push_line("Box() {");
        self.push(CodeEmital::TabIn);
        self.push(CodeEmital::Sleep(pause));
        self.push(CodeEmital::CtrlDown);
        self.push(CodeEmital::MouseMove(min.x, min.y));
        self.push(CodeEmital::Sleep(BOX_WAIT_MS));
        self.push(CodeEmital::MouseDown);
        self.push(CodeEmital::MouseMove(min.x, max.y));
        self.push(CodeEmital::Sleep(BOX_WAIT_MS));
        self.push(CodeEmital::MouseMove(max.x, max.y));
        self.push(CodeEmital::Sleep(BOX_WAIT_MS));
        self.push(CodeEmital::MouseMove(max.x, min.y));
        self.push(CodeEmital::Sleep(BOX_WAIT_MS));
        self.push(CodeEmital::MouseMove(min.x, min.y));
        self.push(CodeEmital::Sleep(BOX_WAIT_MS));
        self.push(CodeEmital::MouseUp);
        self.push(CodeEmital::CtrlUp);
        self.push_line("return");
        self.push(CodeEmital::TabOut);
        self.push_line("}");
        let ghost b = box_spec(pause, min, max);
        assert(self@ =~= old(self)@ + b);
        proof {
            assert forall|d: int| d >= 0 implies #[trigger] ok_at(b, d, 0) by {
                reveal_with_fuel(ok_at, 22);
            }
            assert(depth_from(b, 0) == 0) by {
                reveal_with_fuel(depth_from, 22);
            }
            lemma_append_balanced(old(self)@, b);
        }
    }

    fn push_stroke_start(&mut self, p0: Point, last: Point, c: &Config)
        requires
            within(p0, MAX_DRAW as int),
            within(last, MAX_DRAW as int),
        ensures
            final(self)@ == old(self)@ + stroke_start(p0, last, *c),
    {
        self.push(CodeEmital::CtrlDown);
        self.push(CodeEmital::MouseMove(p0.x, p0.y));
        self.push(CodeEmital::Sleep(SETTLE_MS));
        if manhattan_exec(last, p0) < c.proximity {
            self.push(CodeEmital::Sleep(c.pause_ms));
        }
        if c.server_mode {
            self.push(CodeEmital::Sleep(SERVER_PRESS_MS));
            self.push(CodeEmital::MouseDown);
            self.push(CodeEmital::Sleep(SERVER_PRESS_MS));
        } else {
            self.push(CodeEmital::MouseDown);
        }
        assert(self@ =~= old(self)@ + stroke_start(p0, last, *c));
    }

    fn push_stroke_end(&mut self, c: &Config)
        ensures
            final(self)@ == old(self)@ + stroke_end(*c),
    {
        self.push(CodeEmital::CtrlUp);
        self.push(CodeEmital::MouseUp);
        if c.server_mode {
            self.push(CodeEmital::Sleep(SERVER_STROKE_GAP_MS));
        } else {
            self.push(CodeEmital::Sleep(SETTLE_MS));
        }
        self.push(CodeEmital::EmitLine(String::new()));
        assert(self@ =~= old(self)@ + stroke_end(*c));
    }

    /// Appends the stroke block of a polyline and returns its last point,
    /// which is the last drawn point for the next stroke.
    pub fn add_stroke(&mut self, l: &Vec<Point>, last: Point, c: &Config) -> (r: Point)
        requires
            old(self).wf(),
            l@.len() > 0,
            forall|j: int| 0 <= j < l@.len() ==> #[trigger] within(l@[j], MAX_DRAW as int),
            within(last, MAX_DRAW as int),
        ensures
            final(self)@ == old(self)@ + stroke(l@, last, *c),
            final(self).wf(),
            r == l@.last(),
    {
        let ghost start = self@;
        let p0 = l[0];
        assert(within(l@[0], MAX_DRAW as int));
        self.push_stroke_start(p0, last, c);
        let ghost head = stroke_start(l@[0], last, *c);
        assert(self@ =~= start + head + moves_upto(l@, 1));
        let mut k: usize = 1;
        while k < l.len()
            invariant
                1 <= k <= l@.len(),
                forall|j: int| 0 <= j < l@.len() ==> #[trigger] within(l@[j], MAX_DRAW as int),
                self@ == start + head + moves_upto(l@, k as int),
            decreases l@.len() - k,
        {
            let a = l[k - 1];
            let b = l[k];
            assert(within(l@[k - 1], MAX_DRAW as int));
            assert(within(l@[k as int], MAX_DRAW as int));
            self.push(CodeEmital::MouseMove(b.x, b.y));
            if manhattan_exec(a, b) > STRAIGHT_MIN {
                self.push(CodeEmital::Sleep(SETTLE_MS));
            }
            k += 1;
            assert(self@ =~= start + head + moves_upto(l@, k as int));
        }
        self.push_stroke_end(c);
        let ghost st = stroke(l@, last, *c);
        assert(self@ =~= start + st);
        assert(l@.len() > 0);
        proof {
            lemma_moves_tab_free(l@, l@.len() as int);
            assert(tab_free(st));
            assert forall|d: int| d >= 0 implies #[trigger] ok_at(st, d, 0) by {
                lemma_tab_free(st, d);
            }
            lemma_tab_free(st, 0);
            lemma_append_balanced(start, st);
        }
        l[l.len() - 1]
    }

    /// Appends the drawing loop: the toggle and its guard, one stroke block
    /// for each polyline with the last drawn point carried from one to the
    /// next (starting at the origin), a safety button release, and the exit.
    pub fn add_draw_loop(&mut self, doc: &Vec<Vec<Point>>, c: &Config)
        requires
            old(self).wf(),
            forall|i: int| 0 <= i < doc@.len() ==> #[trigger] doc@[i]@.len() > 0,
            forall|i: int, j: int|
                0 <= i < doc@.len() && 0 <= j < doc@[i]@.len() ==> #[trigger] within(
                    doc@[i]@[j],
                    MAX_DRAW as int,
                ),
        ensures
            final(self)@ == old(self)@ + draw_loop(doc_view(doc@), *c),
            final(self).wf(),
    {
        let ghost d = doc_view(doc@);
        let ghost start = self@;
        self.push_line("^z::");
        self.push_line("Toggle := !Toggle");
        self.push_line("Loop");
        self.push_line("{");
        self.push(CodeEmital::TabIn);
        self.push_line("If (!Toggle)");
        self.push(CodeEmital::TabIn);
        self.push_line("Break");
        self.push(CodeEmital::TabOut);
        self.push(CodeEmital::Sleep(c.start_interval_ms));
        let ghost head = loop_head(*c);
        assert(self@ =~= start + head);
        proof {
            assert forall|e: int| e >= 0 implies #[trigger] ok_at(head, e, 0) by {
                reveal_with_fuel(ok_at, 11);
            }
            assert(depth_from(head, 0) == 1) by {
                reveal_with_fuel(depth_from, 11);
            }
            lemma_ok_depth_at(start, 0, 0);
            lemma_concat(start, head, 0);
            assert(ok_at(head, depth_from(start, 0), 0));
        }
        let mut last = Point { x: 0, y: 0 };
        let mut i: usize = 0;
        assert(self@ =~= start + head + strokes_upto(d, 0, *c));
        while i < doc.len()
            invariant
                d == doc_view(doc@),
                i <= doc@.len(),
                forall|a: int| 0 <= a < doc@.len() ==> #[trigger] doc@[a]@.len() > 0,
                forall|a: int, b: int|
                    0 <= a < doc@.len() && 0 <= b < doc@[a]@.len() ==> #[trigger] within(
                        doc@[a]@[b],
                        MAX_DRAW as int,
                    ),
                self@ == start + head + strokes_upto(d, i as int, *c),
                self.wf(),
                last == last_before(d, i as int),
                within(last, MAX_DRAW as int),
            decreases doc@.len() - i,
        {
            let l = &doc[i];
            assert(d[i as int] == l@);
            assert(l@.len() > 0);
            assert(forall|j: int| 0 <= j < l@.len() ==> #[trigger] within(l@[j], MAX_DRAW as int)) by {
                assert forall|j: int| 0 <= j < l@.len() implies #[trigger] within(
                    l@[j],
                    MAX_DRAW as int,
                ) by {
                    assert(within(doc@[i as int]@[j], MAX_DRAW as int));
                }
            }
            last = self.add_stroke(l, last, c);
            assert(within(l@[l@.len() - 1], MAX_DRAW as int));
            i += 1;
            assert(self@ =~= start + head + strokes_upto(d, i as int, *c));
        }
        self.push(CodeEmital::MouseUp);
        self.push_line("Exit, 0");
        self.push(CodeEmital::TabOut);
        self.push_line("}");
        let ghost body = strokes_upto(d, d.len() as int, *c);
        let ghost tail = loop_tail();
        assert(self@ =~= start + draw_loop(d, *c));
        proof {
            lemma_strokes_tab_free(d, d.len() as int, *c);
            lemma_tab_free(body, 1);
            assert(ok_at(tail, 1, 0) && depth_from(tail, 0) == -1) by {
                reveal_with_fuel(ok_at, 5);
                reveal_with_fuel(depth_from, 5);
            }
            assert(draw_loop(d, *c) == head + body + tail);
            assert forall|e: int| e >= 0 implies #[trigger] ok_at(draw_loop(d, *c), e, 0) by {
                lemma_tab_free(body, e + 1);
                assert(ok_at(tail, e + 1, 0)) by {
                    reveal_with_fuel(ok_at, 5);
                }
                lemma_concat(head, body, e);
                lemma_concat(head + body, tail, e);
            }
            lemma_concat(head, body, 0);
            lemma_concat(head + body, tail, 0);
            lemma_append_balanced(start, draw_loop(d, *c));
        }
    }
}

} // verus!
