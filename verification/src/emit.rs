//! Justification and emission of positioned draw commands.
//!
//! Lines are walked in order; line `i` gets the baseline
//! `region.y + i * region.lineskip`. Within a line the pen starts at
//! `region.x`; a separator advances the pen by the line's per-separator
//! gap and emits nothing, any other box is drawn at the pen and advances
//! it by the box's width. On a justified line the per-separator gap is
//! `space_width + slack / (n - 1)` for `n` non-separator boxes, an exact
//! rational; positions are therefore kept as `x_units + x_num / x_den`.

use vstd::prelude::*;
use crate::assemble::{Line, LineModel};
use crate::metrics::BoxModel;
use crate::region::{JustifyMode, Region, RegionModel};
use crate::MAX_BOXES;
use crate::MAX_DIM;

verus! {

/// Largest possible per-separator gap numerator:
/// `MAX_DIM * MAX_BOXES + MAX_DIM`.
const GAP_MAX: i64 = 0x100_0010_0000;

/// One positioned draw call: the token text to show, its advance width,
/// and the exact pen position `(x_units + x_num / x_den, y)`, all in
/// 26.6 units.
#[derive(Debug)]
pub struct DrawCmd {
    pub text: Vec<char>,
    pub width: i64,
    pub x_units: i64,
    pub x_num: i64,
    pub x_den: i64,
    pub y: i64,
}

/// The mathematical value of a draw call.
pub ghost struct DrawModel {
    pub text: Seq<char>,
    pub width: int,
    pub x_units: int,
    pub x_num: int,
    pub x_den: int,
    pub y: int,
}

impl View for DrawCmd {
    type V = DrawModel;

    open spec fn view(&self) -> DrawModel {
        DrawModel {
            text: self.text@,
            width: self.width as int,
            x_units: self.x_units as int,
            x_num: self.x_num as int,
            x_den: self.x_den as int,
            y: self.y as int,
        }
    }
}

impl DrawModel {
    /// The draw's pen x-position, scaled by its denominator:
    /// `x_den` times the exact position.
    pub open spec fn x_scaled(self) -> int {
        self.x_units * self.x_den + self.x_num
    }

    /// The draw's right edge, scaled by its denominator.
    pub open spec fn right_scaled(self) -> int {
        (self.x_units + self.width) * self.x_den + self.x_num
    }
}

/// Number of non-separator boxes in a line.
pub open spec fn nonspace_count(boxes: Seq<BoxModel>) -> int
    decreases boxes.len(),
{
    if boxes.len() == 0 {
        0int
    } else {
        nonspace_count(boxes.drop_last()) + if boxes.last().is_space() {
            0int
        } else {
            1int
        }
    }
}

pub proof fn lemma_nonspace_count_bounds(boxes: Seq<BoxModel>)
    ensures
        0 <= nonspace_count(boxes) <= boxes.len(),
    decreases boxes.len(),
{
    if boxes.len() > 0 {
        lemma_nonspace_count_bounds(boxes.drop_last());
    }
}

/// Whether line `i` of `n_lines` is rendered justified: unragged mode,
/// not the last line (or the region overflowed, in which case every line
/// is justified), and at least two non-separator boxes.
pub open spec fn line_justified(
    line: LineModel,
    i: int,
    n_lines: int,
    mode: JustifyMode,
    overflowed: bool,
) -> bool {
    mode is Unragged && (i < n_lines - 1 || overflowed) && nonspace_count(line.boxes) >= 2
}

/// Numerator of the line's per-separator gap over its denominator:
/// a justified line widens each separator evenly by `slack / (n - 1)`.
pub open spec fn line_gap_num(line: LineModel, space_width: int, justified: bool) -> int {
    if justified {
        space_width * (nonspace_count(line.boxes) - 1) + line.slack
    } else {
        space_width
    }
}

/// Denominator of the line's per-separator gap.
pub open spec fn line_gap_den(line: LineModel, justified: bool) -> int {
    if justified {
        nonspace_count(line.boxes) - 1
    } else {
        1
    }
}

/// The draws of a box sequence from pen position
/// `x_units + x_num / x_den`: a separator advances the pen numerator by
/// `gap_num`, any other box is drawn and advances the pen by its width.
pub open spec fn line_draws(
    boxes: Seq<BoxModel>,
    x_units: int,
    x_num: int,
    x_den: int,
    gap_num: int,
    y: int,
) -> Seq<DrawModel>
    decreases boxes.len(),
{
    if boxes.len() == 0 {
        Seq::empty()
    } else if boxes[0].is_space() {
        line_draws(boxes.skip(1), x_units, x_num + gap_num, x_den, gap_num, y)
    } else {
        seq![
            DrawModel {
                text: boxes[0].text,
                width: boxes[0].width,
                x_units,
                x_num,
                x_den,
                y,
            },
        ] + line_draws(boxes.skip(1), x_units + boxes[0].width, x_num, x_den, gap_num, y)
    }
}

/// All draws of line `i`.
pub open spec fn draws_of_line(
    line: LineModel,
    i: int,
    region: RegionModel,
    space_width: int,
    justified: bool,
) -> Seq<DrawModel> {
    line_draws(
        line.boxes,
        region.x,
        0,
        line_gap_den(line, justified),
        line_gap_num(line, space_width, justified),
        region.y + i * region.lineskip,
    )
}

/// The draws of the first `k` lines.
pub open spec fn emit_prefix(
    lines: Seq<LineModel>,
    k: int,
    region: RegionModel,
    space_width: int,
    mode: JustifyMode,
    overflowed: bool,
) -> Seq<DrawModel>
    decreases k,
{
    if k <= 0 {
        Seq::empty()
    } else {
        emit_prefix(lines, k - 1, region, space_width, mode, overflowed) + draws_of_line(
            lines[k - 1],
            k - 1,
            region,
            space_width,
            line_justified(lines[k - 1], k - 1, lines.len() as int, mode, overflowed),
        )
    }
}

/// The draws of the whole assembled block.
pub open spec fn emit_model(
    lines: Seq<LineModel>,
    region: RegionModel,
    space_width: int,
    mode: JustifyMode,
    overflowed: bool,
) -> Seq<DrawModel> {
    emit_prefix(lines, lines.len() as int, region, space_width, mode, overflowed)
}

/// Concatenation of the texts of a draw sequence.
pub open spec fn concat_draw_texts(draws: Seq<DrawModel>) -> Seq<char>
    decreases draws.len(),
{
    if draws.len() == 0 {
        Seq::empty()
    } else {
        draws[0].text + concat_draw_texts(draws.skip(1))
    }
}

/// Counts the non-separator boxes of a line.
fn count_nonspace(line: &Line) -> (n: usize)
    requires
        line@.wf(),
    ensures
        n == nonspace_count(line@.boxes),
{
    let ghost lboxes = line@.boxes;
    let m = line.boxes.len();
    let mut n: usize = 0;
    let mut bi: usize = 0;
    while bi < m
        invariant
            lboxes == line@.boxes,
            m == line.boxes@.len(),
            bi <= m,
            n == nonspace_count(lboxes.take(bi as int)),
            n <= bi,
        decreases m - bi,
    {
        proof {
            assert(lboxes.take(bi + 1).drop_last() =~= lboxes.take(bi as int));
            assert(lboxes.take(bi + 1).last() == lboxes[bi as int]);
        }
        if !line.boxes[bi].is_space() {
            n = n + 1;
        }
        bi = bi + 1;
    }
    proof {
        assert(lboxes.take(m as int) =~= lboxes);
    }
    n
}

/// Walks the assembled lines and produces the positioned draw calls.
pub fn emit_draws(
    lines: &Vec<Line>,
    region: &Region,
    space_width: i64,
    mode: JustifyMode,
    overflowed: bool,
) -> (r: Vec<DrawCmd>)
    requires
        region@.wf(),
        0 <= space_width <= MAX_DIM,
        lines@.len() <= MAX_BOXES + 1,
        forall|i: int| 0 <= i < lines@.len() ==> (#[trigger] lines@[i])@.wf(),
    ensures
        r@.map_values(|d: DrawCmd| d@) == emit_model(
            lines@.map_values(|l: Line| l@),
            region@,
            space_width as int,
            mode,
            overflowed,
        ),
{
    let ghost lms = lines@.map_values(|l: Line| l@);
    let n_lines = lines.len();
    let mut draws: Vec<DrawCmd> = Vec::new();
    let mut y: i64 = region.y;
    let mut li: usize = 0;
    while li < n_lines
        invariant
            lms == lines@.map_values(|l: Line| l@),
            n_lines == lines@.len(),
            region@.wf(),
            0 <= space_width <= MAX_DIM,
            lines@.len() <= MAX_BOXES + 1,
            forall|i: int| 0 <= i < lines@.len() ==> (#[trigger] lines@[i])@.wf(),
            li <= n_lines,
            y == region@.y + li as int * region@.lineskip,
            region@.y <= y <= region@.y + li as int * MAX_DIM,
            draws@.map_values(|d: DrawCmd| d@) == emit_prefix(
                lms,
                li as int,
                region@,
                space_width as int,
                mode,
                overflowed,
            ),
        decreases n_lines - li,
    {
        let ghost draws_pre = draws@.map_values(|d: DrawCmd| d@);
        let ghost lm = lms[li as int];
        let line = &lines[li];
        proof {
            assert(lm == line@);
            assert(lm.wf());
            lemma_nonspace_count_bounds(lm.boxes);
        }
        let n = count_nonspace(line);
        let justified: bool = mode == JustifyMode::Unragged && (li + 1 < n_lines || overflowed)
            && n >= 2;
        proof {
            assert(justified == line_justified(lm, li as int, lms.len() as int, mode, overflowed));
        }
        let gap_num: i64;
        let den: i64;
        if justified {
            let n_gaps = (n - 1) as i64;
            proof {
                assert(0 <= space_width * n_gaps <= MAX_DIM * (MAX_BOXES as i64)) by (nonlinear_arith)
                    requires
                        0 <= space_width <= MAX_DIM,
                        0 <= n_gaps <= MAX_BOXES as i64,
                ;
            }
            gap_num = space_width * n_gaps + line.slack;
            den = n_gaps;
        } else {
            gap_num = space_width;
            den = 1;
        }
        proof {
            assert(gap_num == line_gap_num(lm, space_width as int, justified));
            assert(den == line_gap_den(lm, justified));
            assert(0 <= gap_num <= GAP_MAX);
            assert(1 <= den <= MAX_BOXES as i64);
        }
        let mut x_units: i64 = region.x;
        let mut x_num: i64 = 0;
        let m = line.boxes.len();
        let ghost lboxes = lm.boxes;
        let mut bi: usize = 0;
        proof {
            assert(lboxes.skip(0) =~= lboxes);
        }
        while bi < m
            invariant
                lms == lines@.map_values(|l: Line| l@),
                n_lines == lines@.len(),
                li < n_lines,
                lm == lines@[li as int]@,
                lm.wf(),
                lboxes == lm.boxes,
                m == lm.boxes.len(),
                m == lines@[li as int].boxes@.len(),
                region@.wf(),
                0 <= space_width <= MAX_DIM,
                bi <= m,
                y == region@.y + li as int * region@.lineskip,
                region@.x <= x_units <= region@.x + bi as int * MAX_DIM,
                0 <= x_num <= bi as int * (GAP_MAX as int),
                0 <= gap_num <= GAP_MAX,
                1 <= den <= MAX_BOXES as i64,
                draws_pre + line_draws(
                    lboxes,
                    region@.x,
                    0,
                    den as int,
                    gap_num as int,
                    y as int,
                ) == draws@.map_values(|d: DrawCmd| d@) + line_draws(
                    lboxes.skip(bi as int),
                    x_units as int,
                    x_num as int,
                    den as int,
                    gap_num as int,
                    y as int,
                ),
            decreases m - bi,
        {
            let ghost done = draws@.map_values(|d: DrawCmd| d@);
            proof {
                assert(lboxes.skip(bi as int)[0] == lboxes[bi as int]);
                assert(lboxes.skip(bi as int).skip(1) =~= lboxes.skip(bi + 1));
            }
            let b = &lines[li].boxes[bi];
            proof {
                assert(b@ == lboxes[bi as int]);
                assert(lboxes[bi as int].wf());
            }
            if b.is_space() {
                proof {
                    assert(x_num as int + gap_num as int <= (bi + 1) as int * (GAP_MAX as int))
                        by (nonlinear_arith)
                        requires
                            0 <= x_num <= bi as int * (GAP_MAX as int),
                            0 <= gap_num <= GAP_MAX,
                            0 <= bi,
                    ;
                    assert((bi + 1) as int * (GAP_MAX as int) <= (MAX_BOXES + 1) as int * (
                    GAP_MAX as int)) by (nonlinear_arith)
                        requires
                            bi as int + 1 <= MAX_BOXES as int + 1,
                    ;
                }
                x_num = x_num + gap_num;
            } else {
                let t = b.token.duplicate();
                draws.push(
                    DrawCmd {
                        text: t.text,
                        width: b.metrics.width,
                        x_units,
                        x_num,
                        x_den: den,
                        y,
                    },
                );
                x_units = x_units + b.metrics.width;
                proof {
                    assert(x_units as int <= region@.x + (bi + 1) as int * MAX_DIM)
                        by (nonlinear_arith)
                        requires
                            x_units as int - MAX_DIM <= region@.x + bi as int * MAX_DIM,
                            0 <= bi,
                    ;
                    let d = DrawModel {
                        text: lboxes[bi as int].text,
                        width: lboxes[bi as int].width,
                        x_units: (x_units - b.metrics.width) as int,
                        x_num: x_num as int,
                        x_den: den as int,
                        y: y as int,
                    };
                    assert(draws@.map_values(|d: DrawCmd| d@) =~= done.push(d));
                    assert(done.push(d) + line_draws(
                        lboxes.skip(bi + 1),
                        x_units as int,
                        x_num as int,
                        den as int,
                        gap_num as int,
                        y as int,
                    ) =~= done + (seq![d] + line_draws(
                        lboxes.skip(bi + 1),
                        x_units as int,
                        x_num as int,
                        den as int,
                        gap_num as int,
                        y as int,
                    )));
                }
            }
            bi = bi + 1;
        }
        proof {
            assert(lboxes.skip(m as int) =~= Seq::<BoxModel>::empty());
            assert(draws@.map_values(|d: DrawCmd| d@) + Seq::<DrawModel>::empty() =~= draws@
                .map_values(|d: DrawCmd| d@));
            assert(draws_pre + line_draws(
                lboxes,
                region@.x,
                0,
                den as int,
                gap_num as int,
                y as int,
            ) == draws@.map_values(|d: DrawCmd| d@));
            assert(line_draws(lboxes, region@.x, 0, den as int, gap_num as int, y as int)
                == draws_of_line(lm, li as int, region@, space_width as int, justified));
            assert(emit_prefix(lms, li + 1, region@, space_width as int, mode, overflowed)
                == emit_prefix(lms, li as int, region@, space_width as int, mode, overflowed)
                + draws_of_line(lm, li as int, region@, space_width as int, justified));
            assert((li + 1) as int * region@.lineskip == li as int * region@.lineskip
                + region@.lineskip) by (nonlinear_arith);
            assert((li + 1) as int * MAX_DIM == li as int * MAX_DIM + MAX_DIM) by (nonlinear_arith);
        }
        y = y + region.lineskip;
        li = li + 1;
    }
    draws
}

} // verus!
