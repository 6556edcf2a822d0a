//! Greedy first-fit assembly of measured boxes into lines.
//!
//! Boxes are consumed in order. A box whose effective width still fits
//! between the pen and the region's right edge is appended to the open
//! line; otherwise the open line is closed and the box starts a fresh
//! line, except that a separator at the start of a fresh line is
//! discarded. When the next baseline would fall below the region's bottom
//! edge, assembly stops and the remaining boxes are dropped.

use vstd::prelude::*;
use crate::metrics::{BoxModel, TokenBox};
use crate::region::{Region, RegionModel};
use crate::MAX_BOXES;
use crate::MAX_DIM;

verus! {

/// A closed line: its boxes, and the slack recorded when its last
/// non-separator box was placed (the distance from that box's right edge
/// to the region's right edge).
#[derive(Debug)]
pub struct Line {
    pub boxes: Vec<TokenBox>,
    pub slack: i64,
}

/// The mathematical value of a line.
pub ghost struct LineModel {
    pub boxes: Seq<BoxModel>,
    pub slack: int,
}

impl View for Line {
    type V = LineModel;

    open spec fn view(&self) -> LineModel {
        LineModel { boxes: self.boxes@.map_values(|b: TokenBox| b@), slack: self.slack as int }
    }
}

impl LineModel {
    /// Bounds under which all emission arithmetic stays exact.
    pub open spec fn wf(self) -> bool {
        self.boxes.len() <= MAX_BOXES && 0 <= self.slack <= MAX_DIM && (forall|i: int|
            0 <= i < self.boxes.len() ==> (#[trigger] self.boxes[i]).wf())
    }
}

/// The assembly state after some prefix of the box stream.
pub ghost struct AsmState {
    pub lines: Seq<LineModel>,
    pub cur: Seq<BoxModel>,
    pub slack: int,
    pub pen_x: int,
    pub pen_y: int,
    pub overflowed: bool,
}

/// The width a box occupies on the line: a separator is rendered at the
/// base separator width, any other box at its own advance width.
pub open spec fn effective_width(b: BoxModel, space_width: int) -> int {
    if b.is_space() {
        space_width
    } else {
        b.width
    }
}

/// The state before any box is consumed.
pub open spec fn asm_init(region: RegionModel) -> AsmState {
    AsmState {
        lines: Seq::empty(),
        cur: Seq::empty(),
        slack: 0,
        pen_x: region.x,
        pen_y: region.y,
        overflowed: false,
    }
}

/// How one measured box changes the assembly state.
pub open spec fn asm_step(st: AsmState, b: BoxModel, region: RegionModel, space_width: int) -> AsmState {
    if st.overflowed {
        st
    } else {
        let w = effective_width(b, space_width);
        if st.pen_x + w <= region.right() {
            AsmState {
                lines: st.lines,
                cur: st.cur.push(b),
                slack: if b.is_space() {
                    st.slack
                } else {
                    region.right() - (st.pen_x + b.width)
                },
                pen_x: st.pen_x + w,
                pen_y: st.pen_y,
                overflowed: false,
            }
        } else {
            let lines = st.lines.push(LineModel { boxes: st.cur, slack: st.slack });
            let pen_y = st.pen_y + region.lineskip;
            if pen_y > region.bottom() {
                AsmState {
                    lines,
                    cur: Seq::empty(),
                    slack: 0,
                    pen_x: region.x,
                    pen_y,
                    overflowed: true,
                }
            } else if b.is_space() {
                AsmState {
                    lines,
                    cur: Seq::empty(),
                    slack: 0,
                    pen_x: region.x,
                    pen_y,
                    overflowed: false,
                }
            } else {
                AsmState {
                    lines,
                    cur: seq![b],
                    slack: 0,
                    pen_x: region.x + b.width,
                    pen_y,
                    overflowed: false,
                }
            }
        }
    }
}

/// The assembly state after the whole box stream; an absent box is
/// skipped.
pub open spec fn asm_run(boxes: Seq<Option<BoxModel>>, region: RegionModel, space_width: int) -> AsmState
    decreases boxes.len(),
{
    if boxes.len() == 0 {
        asm_init(region)
    } else {
        let st = asm_run(boxes.drop_last(), region, space_width);
        match boxes.last() {
            Option::None => st,
            Option::Some(b) => asm_step(st, b, region, space_width),
        }
    }
}

/// The assembled lines and the overflow flag. Unless the region
/// overflowed, the open line is closed and kept; it may be empty.
pub open spec fn asm_result(boxes: Seq<Option<BoxModel>>, region: RegionModel, space_width: int) -> (Seq<LineModel>, bool) {
    let st = asm_run(boxes, region, space_width);
    if st.overflowed {
        (st.lines, true)
    } else {
        (st.lines.push(LineModel { boxes: st.cur, slack: st.slack }), false)
    }
}

/// The mathematical value of a measured box stream.
pub open spec fn view_boxes(bs: Seq<Option<TokenBox>>) -> Seq<Option<BoxModel>> {
    bs.map_values(
        |ob: Option<TokenBox>|
            match ob {
                Option::Some(b) => Option::Some(b@),
                Option::None => Option::None::<BoxModel>,
            },
    )
}

/// Box streams small enough that all position arithmetic stays exact.
pub open spec fn boxes_wf(bs: Seq<Option<BoxModel>>) -> bool {
    bs.len() <= MAX_BOXES && (forall|i: int|
        0 <= i < bs.len() ==> ((#[trigger] bs[i]) matches Option::Some(b) ==> b.wf()))
}

/// Once the region has overflowed, the remaining boxes change nothing.
proof fn lemma_asm_run_absorbs(bs: Seq<Option<BoxModel>>, region: RegionModel, space_width: int, i: int)
    requires
        0 <= i <= bs.len(),
        asm_run(bs.take(i), region, space_width).overflowed,
    ensures
        asm_run(bs, region, space_width) == asm_run(bs.take(i), region, space_width),
    decreases bs.len() - i,
{
    if i < bs.len() {
        assert(bs.take(i + 1).drop_last() =~= bs.take(i));
        assert(bs.take(i + 1).last() == bs[i]);
        lemma_asm_run_absorbs(bs, region, space_width, i + 1);
    } else {
        assert(bs.take(i) =~= bs);
    }
}

/// All intermediate states keep their lines and pens within bounds.
pub proof fn lemma_asm_run_wf(bs: Seq<Option<BoxModel>>, region: RegionModel, space_width: int)
    requires
        region.wf(),
        0 <= space_width <= MAX_DIM,
        boxes_wf(bs),
    ensures
        ({
            let st = asm_run(bs, region, space_width);
            st.lines.len() <= bs.len() && st.cur.len() <= bs.len() && 0 <= st.slack <= MAX_DIM
                && region.x <= st.pen_x <= region.x + region.width + MAX_DIM
                && region.y <= st.pen_y <= region.bottom() + region.lineskip
                && (!st.overflowed ==> st.pen_y <= region.bottom())
                && (forall|i: int| 0 <= i < st.lines.len() ==> (#[trigger] st.lines[i]).wf())
                && (LineModel { boxes: st.cur, slack: st.slack }).wf()
        }),
    decreases bs.len(),
{
    if bs.len() > 0 {
        assert(boxes_wf(bs.drop_last()));
        lemma_asm_run_wf(bs.drop_last(), region, space_width);
    }
}

/// Assembles the measured boxes greedily into lines. Returns the closed
/// lines and whether the region's height was exhausted before the stream
/// ended.
pub fn assemble_lines(boxes: &Vec<Option<TokenBox>>, region: &Region, space_width: i64) -> (r: (
    Vec<Line>,
    bool,
))
    requires
        region@.wf(),
        0 <= space_width <= MAX_DIM,
        boxes_wf(view_boxes(boxes@)),
    ensures
        r.0@.map_values(|l: Line| l@) == asm_result(view_boxes(boxes@), region@, space_width as int).0,
        r.1 == asm_result(view_boxes(boxes@), region@, space_width as int).1,
{
    let ghost bs = view_boxes(boxes@);
    let n = boxes.len();
    let mut lines: Vec<Line> = Vec::new();
    let mut cur: Vec<TokenBox> = Vec::new();
    let mut slack: i64 = 0;
    let mut pen_x: i64 = region.x;
    let mut pen_y: i64 = region.y;
    let mut overflowed: bool = false;
    let mut i: usize = 0;
    while i < n && !overflowed
        invariant
            bs == view_boxes(boxes@),
            n == boxes@.len(),
            region@.wf(),
            0 <= space_width <= MAX_DIM,
            boxes_wf(bs),
            i <= n,
            ({
                let st = asm_run(bs.take(i as int), region@, space_width as int);
                st.lines == lines@.map_values(|l: Line| l@) && st.cur == cur@.map_values(
                    |b: TokenBox| b@,
                ) && st.slack == slack as int && st.pen_x == pen_x as int && st.pen_y
                    == pen_y as int && st.overflowed == overflowed
            }),
            region@.x <= pen_x <= region@.x + region@.width + MAX_DIM,
            0 <= slack <= MAX_DIM,
            region@.y <= pen_y <= region@.bottom() + region@.lineskip,
            !overflowed ==> pen_y <= region@.bottom(),
        decreases n - i,
    {
        proof {
            assert(bs.take(i + 1).drop_last() =~= bs.take(i as int));
            assert(bs.take(i + 1).last() == bs[i as int]);
        }
        let ghost lines_pre = lines@.map_values(|l: Line| l@);
        let ghost cur_pre = cur@.map_values(|b: TokenBox| b@);
        match &boxes[i] {
            Option::None => {},
            Option::Some(b) => {
                let ghost bm = b@;
                let is_sp = b.is_space();
                let w: i64 = if is_sp {
                    space_width
                } else {
                    b.metrics.width
                };
                if pen_x + w <= region.x + region.width {
                    if !is_sp {
                        slack = region.x + region.width - (pen_x + b.metrics.width);
                    }
                    cur.push(b.duplicate());
                    pen_x = pen_x + w;
                    proof {
                        assert(cur@.map_values(|b: TokenBox| b@) =~= cur_pre.push(bm));
                    }
                } else {
                    let ghost slack_pre = slack as int;
                    let closed = cur;
                    cur = Vec::new();
                    lines.push(Line { boxes: closed, slack });
                    slack = 0;
                    pen_x = region.x;
                    pen_y = pen_y + region.lineskip;
                    proof {
                        assert(lines@.map_values(|l: Line| l@) =~= lines_pre.push(
                            LineModel { boxes: cur_pre, slack: slack_pre },
                        ));
                        assert(cur@.map_values(|b: TokenBox| b@) =~= Seq::<BoxModel>::empty());
                    }
                    if pen_y > region.y + region.height {
                        overflowed = true;
                    } else if !is_sp {
                        cur.push(b.duplicate());
                        pen_x = region.x + b.metrics.width;
                        proof {
                            assert(cur@.map_values(|b: TokenBox| b@) =~= seq![bm]);
                        }
                    }
                }
            },
        }
        i = i + 1;
    }
    proof {
        if overflowed {
            lemma_asm_run_absorbs(bs, region@, space_width as int, i as int);
        } else {
            assert(bs.take(i as int) =~= bs);
        }
    }
    if overflowed {
        (lines, true)
    } else {
        let final_slack = slack;
        lines.push(Line { boxes: cur, slack: final_slack });
        proof {
            assert(lines@.map_values(|l: Line| l@) =~= asm_result(
                bs,
                region@,
                space_width as int,
            ).0);
        }
        (lines, false)
    }
}

} // verus!
