//! The engine's global guarantees, stated and proved over the layout
//! models: every law here speaks about `layout_model` (assembly followed
//! by emission) for whole classes of inputs.

use vstd::prelude::*;
use crate::assemble::{asm_result, asm_run, boxes_wf, LineModel};
use crate::chars::{is_classified, is_space_char};
use crate::emit::{
    concat_draw_texts, draws_of_line, emit_model, emit_prefix, line_draws, line_gap_den,
    line_gap_num, line_justified, nonspace_count, DrawModel,
};
use crate::layout::{layout_model, region_dims_valid};
use crate::metrics::BoxModel;
use crate::region::{JustifyMode, RegionModel};
use crate::segment::{concat_nonspace_texts, segment_model, TokenModel};

verus! {

/// Every draw of `line_draws` carries the denominator and baseline it was
/// started with.
proof fn lemma_line_draws_den_y(
    boxes: Seq<BoxModel>,
    x_units: int,
    x_num: int,
    x_den: int,
    gap_num: int,
    y: int,
)
    ensures
        forall|t: int|
            0 <= t < line_draws(boxes, x_units, x_num, x_den, gap_num, y).len() ==> {
                let d = #[trigger] line_draws(boxes, x_units, x_num, x_den, gap_num, y)[t];
                d.x_den == x_den && d.y == y
            },
    decreases boxes.len(),
{
    if boxes.len() > 0 {
        if boxes[0].is_space() {
            lemma_line_draws_den_y(boxes.skip(1), x_units, x_num + gap_num, x_den, gap_num, y);
            let whole = line_draws(boxes, x_units, x_num, x_den, gap_num, y);
            let rest = line_draws(boxes.skip(1), x_units, x_num + gap_num, x_den, gap_num, y);
            assert forall|t: int| 0 <= t < whole.len() implies {
                let d = #[trigger] whole[t];
                d.x_den == x_den && d.y == y
            } by {
                assert(whole[t] == rest[t]);
            }
        } else {
            lemma_line_draws_den_y(
                boxes.skip(1),
                x_units + boxes[0].width,
                x_num,
                x_den,
                gap_num,
                y,
            );
            let whole = line_draws(boxes, x_units, x_num, x_den, gap_num, y);
            let rest = line_draws(boxes.skip(1), x_units + boxes[0].width, x_num, x_den, gap_num, y);
            assert forall|t: int| 0 <= t < whole.len() implies {
                let d = #[trigger] whole[t];
                d.x_den == x_den && d.y == y
            } by {
                if t > 0 {
                    assert(whole[t] == rest[t - 1]);
                }
            }
        }
    }
}

/// Every draw of the first `k` lines sits on the baseline of its line,
/// and hence within the region's bottom edge if all those baselines are.
proof fn lemma_emit_prefix_y_bound(
    lines: Seq<LineModel>,
    k: int,
    region: RegionModel,
    space_width: int,
    mode: JustifyMode,
    overflowed: bool,
)
    requires
        k <= lines.len(),
        forall|i: int| 0 <= i < k ==> region.y + #[trigger] (i * region.lineskip) <= region.bottom(),
    ensures
        forall|t: int|
            0 <= t < emit_prefix(lines, k, region, space_width, mode, overflowed).len()
                ==> (#[trigger] emit_prefix(lines, k, region, space_width, mode, overflowed)[t]).y
                <= region.bottom(),
    decreases k,
{
    if k > 0 {
        lemma_emit_prefix_y_bound(lines, k - 1, region, space_width, mode, overflowed);
        let line = lines[k - 1];
        let justified = line_justified(line, k - 1, lines.len() as int, mode, overflowed);
        let den = crate::emit::line_gap_den(line, justified);
        let gap = crate::emit::line_gap_num(line, space_width, justified);
        let yline = region.y + (k - 1) * region.lineskip;
        lemma_line_draws_den_y(line.boxes, region.x, 0, den, gap, yline);
        let whole = emit_prefix(lines, k, region, space_width, mode, overflowed);
        let pre = emit_prefix(lines, k - 1, region, space_width, mode, overflowed);
        let dl = line_draws(line.boxes, region.x, 0, den, gap, yline);
        assert(whole == pre + dl);
        assert(yline <= region.bottom());
        assert forall|t: int| 0 <= t < whole.len() implies (#[trigger] whole[t]).y
            <= region.bottom() by {
            if t < pre.len() {
                assert(whole[t] == pre[t]);
            } else {
                assert(whole[t] == dl[t - pre.len()]);
            }
        }
    }
}

/// Assembly keeps every closed line's baseline within the region: line
/// `i` has baseline `y + i * lineskip`, and no closed line's baseline
/// passes the bottom edge.
proof fn lemma_asm_run_y(bs: Seq<Option<BoxModel>>, region: RegionModel, space_width: int)
    requires
        region.wf(),
    ensures
        ({
            let st = asm_run(bs, region, space_width);
            st.pen_y == region.y + st.lines.len() * region.lineskip && (!st.overflowed
                ==> st.pen_y <= region.bottom()) && (forall|i: int|
                0 <= i < st.lines.len() ==> region.y + #[trigger] (i * region.lineskip)
                    <= region.bottom())
        }),
    decreases bs.len(),
{
    if bs.len() > 0 {
        lemma_asm_run_y(bs.drop_last(), region, space_width);
        let st = asm_run(bs.drop_last(), region, space_width);
        let nl = st.lines.len() as int;
        assert((nl + 1) * region.lineskip == nl * region.lineskip + region.lineskip)
            by (nonlinear_arith);
        let st2 = asm_run(bs, region, space_width);
        assert forall|i: int| 0 <= i < st2.lines.len() implies region.y + #[trigger] (i
            * region.lineskip) <= region.bottom() by {
            if i == nl && st2.lines.len() == st.lines.len() + 1 {
                assert(region.y + i * region.lineskip == st.pen_y);
            }
        }
    }
}

/// No emitted baseline passes the region's bottom edge: every draw the
/// layout produces has `y <= region.y + region.height`, whatever the
/// boxes, the separator width and the mode.
pub proof fn law_baselines_within_region(
    bs: Seq<Option<BoxModel>>,
    region: RegionModel,
    space_width: int,
    mode: JustifyMode,
)
    requires
        region.wf(),
        region_dims_valid(region),
    ensures
        forall|t: int|
            0 <= t < layout_model(bs, region, space_width, mode).len() ==> (#[trigger]
            layout_model(bs, region, space_width, mode)[t]).y <= region.y + region.height,
{
    lemma_asm_run_y(bs, region, space_width);
    let st = asm_run(bs, region, space_width);
    let r = asm_result(bs, region, space_width);
    let lines = r.0;
    assert forall|i: int| 0 <= i < lines.len() implies region.y + #[trigger] (i
        * region.lineskip) <= region.bottom() by {
        if !st.overflowed && i == st.lines.len() as int {
            assert(region.y + i * region.lineskip == st.pen_y);
        }
    }
    lemma_emit_prefix_y_bound(lines, lines.len() as int, region, space_width, mode, r.1);
}

/// Concatenation of the texts of the non-separator boxes.
pub open spec fn concat_nonspace_box_texts(boxes: Seq<BoxModel>) -> Seq<char>
    decreases boxes.len(),
{
    if boxes.len() == 0 {
        Seq::empty()
    } else if boxes[0].is_space() {
        concat_nonspace_box_texts(boxes.skip(1))
    } else {
        boxes[0].text + concat_nonspace_box_texts(boxes.skip(1))
    }
}

/// What one measured box contributes to the non-separator text.
pub open spec fn box_text_part(ob: Option<BoxModel>) -> Seq<char> {
    match ob {
        Option::Some(b) => if b.is_space() {
            Seq::empty()
        } else {
            b.text
        },
        Option::None => Seq::empty(),
    }
}

/// Concatenation of the texts of the present non-separator boxes of a
/// stream.
pub open spec fn stream_nonspace_texts(bs: Seq<Option<BoxModel>>) -> Seq<char>
    decreases bs.len(),
{
    if bs.len() == 0 {
        Seq::empty()
    } else {
        box_text_part(bs[0]) + stream_nonspace_texts(bs.skip(1))
    }
}

/// Concatenation of the non-separator texts of the first `k` lines.
pub open spec fn lines_nonspace_texts(lines: Seq<LineModel>, k: int) -> Seq<char>
    decreases k,
{
    if k <= 0 {
        Seq::empty()
    } else {
        lines_nonspace_texts(lines, k - 1) + concat_nonspace_box_texts(lines[k - 1].boxes)
    }
}

proof fn lemma_box_texts_snoc(boxes: Seq<BoxModel>, b: BoxModel)
    ensures
        concat_nonspace_box_texts(boxes.push(b)) == concat_nonspace_box_texts(boxes)
            + box_text_part(Option::Some(b)),
    decreases boxes.len(),
{
    if boxes.len() == 0 {
        assert(boxes.push(b)[0] == b);
        assert(boxes.push(b).skip(1) =~= Seq::<BoxModel>::empty());
        assert(concat_nonspace_box_texts(Seq::<BoxModel>::empty()) == Seq::<char>::empty());
        assert(concat_nonspace_box_texts(boxes.push(b).skip(1)) == Seq::<char>::empty());
        if b.is_space() {
            assert(concat_nonspace_box_texts(boxes.push(b)) == Seq::<char>::empty());
        } else {
            assert(concat_nonspace_box_texts(boxes.push(b)) == b.text + Seq::<char>::empty());
        }
        assert(concat_nonspace_box_texts(boxes.push(b)) =~= Seq::<char>::empty()
            + box_text_part(Option::Some(b)));
    } else {
        assert(boxes.push(b)[0] == boxes[0]);
        assert(boxes.push(b).skip(1) =~= boxes.skip(1).push(b));
        lemma_box_texts_snoc(boxes.skip(1), b);
        if !boxes[0].is_space() {
            assert(boxes[0].text + (concat_nonspace_box_texts(boxes.skip(1)) + box_text_part(
                Option::Some(b),
            )) =~= (boxes[0].text + concat_nonspace_box_texts(boxes.skip(1))) + box_text_part(
                Option::Some(b),
            ));
        }
    }
}

proof fn lemma_stream_texts_snoc(bs: Seq<Option<BoxModel>>, ob: Option<BoxModel>)
    ensures
        stream_nonspace_texts(bs.push(ob)) == stream_nonspace_texts(bs) + box_text_part(ob),
    decreases bs.len(),
{
    if bs.len() == 0 {
        assert(bs.push(ob)[0] == ob);
        assert(bs.push(ob).skip(1) =~= Seq::<Option<BoxModel>>::empty());
        assert(stream_nonspace_texts(Seq::<Option<BoxModel>>::empty()) == Seq::<char>::empty());
        assert(stream_nonspace_texts(bs.push(ob).skip(1)) == Seq::<char>::empty());
        assert(stream_nonspace_texts(bs.push(ob)) == box_text_part(ob) + Seq::<char>::empty());
        assert(stream_nonspace_texts(bs.push(ob)) =~= Seq::<char>::empty() + box_text_part(ob));
    } else {
        assert(bs.push(ob)[0] == bs[0]);
        assert(bs.push(ob).skip(1) =~= bs.skip(1).push(ob));
        lemma_stream_texts_snoc(bs.skip(1), ob);
        assert(box_text_part(bs[0]) + (stream_nonspace_texts(bs.skip(1)) + box_text_part(ob))
            =~= (box_text_part(bs[0]) + stream_nonspace_texts(bs.skip(1))) + box_text_part(ob));
    }
}

proof fn lemma_lines_texts_push(lines: Seq<LineModel>, l: LineModel, k: int)
    requires
        0 <= k <= lines.len(),
    ensures
        lines_nonspace_texts(lines.push(l), k) == lines_nonspace_texts(lines, k),
    decreases k,
{
    if k > 0 {
        assert(lines.push(l)[k - 1] == lines[k - 1]);
        lemma_lines_texts_push(lines, l, k - 1);
    }
}

/// Assembly loses no non-separator text while the region has not
/// overflowed: the closed lines plus the open line hold exactly the
/// present non-separator texts of the consumed stream, in order.
proof fn lemma_asm_run_texts(bs: Seq<Option<BoxModel>>, region: RegionModel, space_width: int)
    ensures
        ({
            let st = asm_run(bs, region, space_width);
            !st.overflowed ==> lines_nonspace_texts(st.lines, st.lines.len() as int)
                + concat_nonspace_box_texts(st.cur) == stream_nonspace_texts(bs)
        }),
    decreases bs.len(),
{
    let st = asm_run(bs, region, space_width);
    if bs.len() == 0 {
        assert(stream_nonspace_texts(bs) =~= Seq::<char>::empty() + Seq::<char>::empty());
    } else {
        let bs0 = bs.drop_last();
        let ob = bs.last();
        lemma_asm_run_texts(bs0, region, space_width);
        let st0 = asm_run(bs0, region, space_width);
        assert(bs0.push(ob) =~= bs);
        lemma_stream_texts_snoc(bs0, ob);
        if !st.overflowed {
            let l0 = lines_nonspace_texts(st0.lines, st0.lines.len() as int);
            let c0 = concat_nonspace_box_texts(st0.cur);
            match ob {
                Option::None => {
                    assert((l0 + c0) + box_text_part(ob) =~= l0 + c0);
                },
                Option::Some(b) => {
                    let w = crate::assemble::effective_width(b, space_width);
                    if st0.pen_x + w <= region.right() {
                        lemma_box_texts_snoc(st0.cur, b);
                        assert(l0 + (c0 + box_text_part(ob)) =~= (l0 + c0) + box_text_part(ob));
                    } else {
                        let pushed = LineModel { boxes: st0.cur, slack: st0.slack };
                        lemma_lines_texts_push(st0.lines, pushed, st0.lines.len() as int);
                        assert(st.lines == st0.lines.push(pushed));
                        assert(st.lines[st.lines.len() - 1] == pushed);
                        assert(lines_nonspace_texts(st.lines, st.lines.len() as int) == l0 + c0);
                        if b.is_space() {
                            assert(concat_nonspace_box_texts(st.cur) =~= Seq::<char>::empty());
                            assert((l0 + c0) + concat_nonspace_box_texts(st.cur) =~= (l0 + c0)
                                + box_text_part(ob));
                        } else {
                            assert(st.cur =~= seq![b]);
                            assert(seq![b][0] == b);
                            assert(seq![b].skip(1) =~= Seq::<BoxModel>::empty());
                            assert(concat_nonspace_box_texts(Seq::<BoxModel>::empty())
                                == Seq::<char>::empty());
                            assert(concat_nonspace_box_texts(seq![b].skip(1))
                                == Seq::<char>::empty());
                            assert(concat_nonspace_box_texts(seq![b]) == b.text
                                + Seq::<char>::empty());
                            assert(concat_nonspace_box_texts(seq![b]) =~= b.text);
                            assert((l0 + c0) + concat_nonspace_box_texts(st.cur) =~= (l0 + c0)
                                + box_text_part(ob));
                        }
                    }
                },
            }
        }
    }
}

proof fn lemma_draw_texts_cons(d: DrawModel, rest: Seq<DrawModel>)
    ensures
        concat_draw_texts(seq![d] + rest) == d.text + concat_draw_texts(rest),
{
    let w = seq![d] + rest;
    assert(w[0] == d);
    assert(w.skip(1) =~= rest);
}

proof fn lemma_draw_texts_append(a: Seq<DrawModel>, b: Seq<DrawModel>)
    ensures
        concat_draw_texts(a + b) == concat_draw_texts(a) + concat_draw_texts(b),
    decreases a.len(),
{
    if a.len() == 0 {
        assert(a + b =~= b);
        assert(Seq::<char>::empty() + concat_draw_texts(b) =~= concat_draw_texts(b));
    } else {
        assert((a + b)[0] == a[0]);
        assert((a + b).skip(1) =~= a.skip(1) + b);
        lemma_draw_texts_append(a.skip(1), b);
        assert(a[0].text + (concat_draw_texts(a.skip(1)) + concat_draw_texts(b)) =~= (a[0].text
            + concat_draw_texts(a.skip(1))) + concat_draw_texts(b));
    }
}

/// One line's draws carry exactly its non-separator texts, in order.
proof fn lemma_line_draws_texts(
    boxes: Seq<BoxModel>,
    x_units: int,
    x_num: int,
    x_den: int,
    gap_num: int,
    y: int,
)
    ensures
        concat_draw_texts(line_draws(boxes, x_units, x_num, x_den, gap_num, y))
            == concat_nonspace_box_texts(boxes),
    decreases boxes.len(),
{
    if boxes.len() > 0 {
        if boxes[0].is_space() {
            lemma_line_draws_texts(boxes.skip(1), x_units, x_num + gap_num, x_den, gap_num, y);
        } else {
            let d = DrawModel {
                text: boxes[0].text,
                width: boxes[0].width,
                x_units,
                x_num,
                x_den,
                y,
            };
            let rest = line_draws(boxes.skip(1), x_units + boxes[0].width, x_num, x_den, gap_num, y);
            lemma_draw_texts_cons(d, rest);
            lemma_line_draws_texts(boxes.skip(1), x_units + boxes[0].width, x_num, x_den, gap_num, y);
        }
    }
}

/// The first `k` emitted lines carry exactly their non-separator texts.
proof fn lemma_emit_texts(
    lines: Seq<LineModel>,
    k: int,
    region: RegionModel,
    space_width: int,
    mode: JustifyMode,
    overflowed: bool,
)
    ensures
        concat_draw_texts(emit_prefix(lines, k, region, space_width, mode, overflowed))
            == lines_nonspace_texts(lines, k),
    decreases k,
{
    if k > 0 {
        lemma_emit_texts(lines, k - 1, region, space_width, mode, overflowed);
        let line = lines[k - 1];
        let justified = line_justified(line, k - 1, lines.len() as int, mode, overflowed);
        lemma_draw_texts_append(
            emit_prefix(lines, k - 1, region, space_width, mode, overflowed),
            draws_of_line(line, k - 1, region, space_width, justified),
        );
        lemma_line_draws_texts(
            line.boxes,
            region.x,
            0,
            crate::emit::line_gap_den(line, justified),
            crate::emit::line_gap_num(line, space_width, justified),
            region.y + (k - 1) * region.lineskip,
        );
    }
}

/// Unless the region overflowed, the emitted draws carry, in order,
/// exactly the texts of the present non-separator boxes of the stream:
/// no token is lost, duplicated or reordered.
pub proof fn law_text_preserved(
    bs: Seq<Option<BoxModel>>,
    region: RegionModel,
    space_width: int,
    mode: JustifyMode,
)
    requires
        asm_result(bs, region, space_width).1 == false,
    ensures
        concat_draw_texts(layout_model(bs, region, space_width, mode)) == stream_nonspace_texts(
            bs,
        ),
{
    lemma_asm_run_texts(bs, region, space_width);
    let st = asm_run(bs, region, space_width);
    let last = LineModel { boxes: st.cur, slack: st.slack };
    let lines = st.lines.push(last);
    lemma_lines_texts_push(st.lines, last, st.lines.len() as int);
    assert(lines[lines.len() - 1] == last);
    assert(lines_nonspace_texts(lines, lines.len() as int) == lines_nonspace_texts(
        st.lines,
        st.lines.len() as int,
    ) + concat_nonspace_box_texts(st.cur));
    lemma_emit_texts(lines, lines.len() as int, region, space_width, mode, false);
}

/// Whether each measured box carries exactly one token of `toks`, in
/// order: same text and same class, none absent.
pub open spec fn boxes_match_tokens(bs: Seq<Option<BoxModel>>, toks: Seq<TokenModel>) -> bool {
    bs.len() == toks.len() && (forall|i: int|
        0 <= i < bs.len() ==> ((#[trigger] bs[i]) matches Option::Some(b) && b.text
            == toks[i].text && b.kind == toks[i].kind))
}

proof fn lemma_stream_matches_tokens(bs: Seq<Option<BoxModel>>, toks: Seq<TokenModel>)
    requires
        boxes_match_tokens(bs, toks),
    ensures
        stream_nonspace_texts(bs) == concat_nonspace_texts(toks),
    decreases bs.len(),
{
    if bs.len() > 0 {
        assert(boxes_match_tokens(bs.skip(1), toks.skip(1)));
        lemma_stream_matches_tokens(bs.skip(1), toks.skip(1));
    }
}

/// Unless the region overflowed, laying out boxes measured for the tokens
/// of a source text emits, in order, exactly the source's non-separator
/// characters: the source text with every separator removed.
pub proof fn law_source_text_preserved(
    text: Seq<char>,
    bs: Seq<Option<BoxModel>>,
    region: RegionModel,
    space_width: int,
    mode: JustifyMode,
)
    requires
        forall|k: int| 0 <= k < text.len() ==> is_classified(#[trigger] text[k]),
        boxes_match_tokens(bs, segment_model(text)),
        asm_result(bs, region, space_width).1 == false,
    ensures
        concat_draw_texts(layout_model(bs, region, space_width, mode)) == text.filter(
            |c: char| !is_space_char(c),
        ),
{
    law_text_preserved(bs, region, space_width, mode);
    lemma_stream_matches_tokens(bs, segment_model(text));
    crate::segment::lemma_segment_nonspace_concat(text, 0);
    assert(text.subrange(0, text.len() as int) =~= text);
}

/// Advance width of the non-separator boxes among the first `k`.
pub open spec fn nonspace_advance(boxes: Seq<BoxModel>, k: int) -> int
    decreases k,
{
    if k <= 0 {
        0
    } else {
        nonspace_advance(boxes, k - 1) + if boxes[k - 1].is_space() {
            0int
        } else {
            boxes[k - 1].width
        }
    }
}

/// Number of separators among the first `k` boxes.
pub open spec fn space_count(boxes: Seq<BoxModel>, k: int) -> int
    decreases k,
{
    if k <= 0 {
        0
    } else {
        space_count(boxes, k - 1) + if boxes[k - 1].is_space() {
            1int
        } else {
            0int
        }
    }
}

/// Index of the last non-separator box, or `-1` if there is none.
pub open spec fn last_nonspace(boxes: Seq<BoxModel>) -> int
    decreases boxes.len(),
{
    if boxes.len() == 0 {
        -1
    } else if !boxes.last().is_space() {
        boxes.len() - 1
    } else {
        last_nonspace(boxes.drop_last())
    }
}

proof fn lemma_space_count_bounds(boxes: Seq<BoxModel>, k: int)
    requires
        0 <= k <= boxes.len(),
    ensures
        0 <= space_count(boxes, k) <= k,
    decreases k,
{
    if k > 0 {
        lemma_space_count_bounds(boxes, k - 1);
    }
}

/// Dropping the first box shifts both prefix sums by its contribution.
proof fn lemma_sums_shift(boxes: Seq<BoxModel>, k: int)
    requires
        boxes.len() >= 1,
        0 <= k <= boxes.len() - 1,
    ensures
        nonspace_advance(boxes, k + 1) == (if boxes[0].is_space() {
            0int
        } else {
            boxes[0].width
        }) + nonspace_advance(boxes.skip(1), k),
        space_count(boxes, k + 1) == (if boxes[0].is_space() {
            1int
        } else {
            0int
        }) + space_count(boxes.skip(1), k),
    decreases k,
{
    if k > 0 {
        assert(boxes.skip(1)[k - 1] == boxes[k]);
        lemma_sums_shift(boxes, k - 1);
        assert(nonspace_advance(boxes, k + 1) == nonspace_advance(boxes, k) + (if boxes[k]
            .is_space() {
            0int
        } else {
            boxes[k].width
        }));
        assert(nonspace_advance(boxes.skip(1), k) == nonspace_advance(boxes.skip(1), k - 1) + (
        if boxes.skip(1)[k - 1].is_space() {
            0int
        } else {
            boxes.skip(1)[k - 1].width
        }));
        assert(space_count(boxes, k + 1) == space_count(boxes, k) + (if boxes[k].is_space() {
            1int
        } else {
            0int
        }));
        assert(space_count(boxes.skip(1), k) == space_count(boxes.skip(1), k - 1) + (if boxes.skip(
            1,
        )[k - 1].is_space() {
            1int
        } else {
            0int
        }));
    } else {
        assert(nonspace_advance(boxes, 1) == nonspace_advance(boxes, 0) + (if boxes[0].is_space() {
            0int
        } else {
            boxes[0].width
        }));
        assert(space_count(boxes, 1) == space_count(boxes, 0) + (if boxes[0].is_space() {
            1int
        } else {
            0int
        }));
    }
}

/// Appending a box leaves the prefix sums of the old boxes unchanged.
proof fn lemma_sums_push(boxes: Seq<BoxModel>, b: BoxModel, k: int)
    requires
        0 <= k <= boxes.len(),
    ensures
        nonspace_advance(boxes.push(b), k) == nonspace_advance(boxes, k),
        space_count(boxes.push(b), k) == space_count(boxes, k),
    decreases k,
{
    if k > 0 {
        assert(boxes.push(b)[k - 1] == boxes[k - 1]);
        lemma_sums_push(boxes, b, k - 1);
    }
}

/// With nonnegative widths and separator width, the pen only moves right.
proof fn lemma_sums_monotone(boxes: Seq<BoxModel>, space_width: int, j: int, k: int)
    requires
        0 <= j <= k <= boxes.len(),
        0 <= space_width,
        forall|i: int| 0 <= i < boxes.len() ==> (#[trigger] boxes[i]).wf(),
    ensures
        nonspace_advance(boxes, j) + space_count(boxes, j) * space_width <= nonspace_advance(
            boxes,
            k,
        ) + space_count(boxes, k) * space_width,
    decreases k - j,
{
    if j < k {
        lemma_sums_monotone(boxes, space_width, j, k - 1);
        assert((space_count(boxes, k - 1) + 1) * space_width == space_count(boxes, k - 1)
            * space_width + space_width) by (nonlinear_arith);
    }
}

/// A line's draw count is its box count less its separator count.
proof fn lemma_line_draws_len(
    boxes: Seq<BoxModel>,
    x_units: int,
    x_num: int,
    x_den: int,
    gap_num: int,
    y: int,
)
    ensures
        line_draws(boxes, x_units, x_num, x_den, gap_num, y).len() == boxes.len() - space_count(
            boxes,
            boxes.len() as int,
        ),
    decreases boxes.len(),
{
    if boxes.len() > 0 {
        lemma_sums_shift(boxes, boxes.len() - 1);
        if boxes[0].is_space() {
            lemma_line_draws_len(boxes.skip(1), x_units, x_num + gap_num, x_den, gap_num, y);
        } else {
            lemma_line_draws_len(
                boxes.skip(1),
                x_units + boxes[0].width,
                x_num,
                x_den,
                gap_num,
                y,
            );
        }
    } else {
        assert(space_count(boxes, 0) == 0);
    }
}

/// Between box `j` and box `k` there are at most `k - j` separators.
proof fn lemma_count_gap_step(boxes: Seq<BoxModel>, j: int, k: int)
    requires
        0 <= j <= k <= boxes.len(),
    ensures
        space_count(boxes, k) - space_count(boxes, j) <= k - j,
    decreases k - j,
{
    if j < k {
        lemma_count_gap_step(boxes, j, k - 1);
    }
}

/// Past a non-separator box at `k`, the separators from `k` on number at
/// most `len - k - 1`.
proof fn lemma_count_gap(boxes: Seq<BoxModel>, k: int)
    requires
        0 <= k < boxes.len(),
        !boxes[k].is_space(),
    ensures
        space_count(boxes, boxes.len() as int) - space_count(boxes, k) <= boxes.len() - k - 1,
{
    lemma_count_gap_step(boxes, k + 1, boxes.len() as int);
}

/// The draw of the non-separator box at index `k` sits at draw index
/// `k - space_count(k)`, at pen position `x_units + nonspace_advance(k)`
/// plus `space_count(k)` gaps.
proof fn lemma_line_draws_at(
    boxes: Seq<BoxModel>,
    x_units: int,
    x_num: int,
    x_den: int,
    gap_num: int,
    y: int,
    k: int,
)
    requires
        0 <= k < boxes.len(),
        !boxes[k].is_space(),
    ensures
        ({
            let draws = line_draws(boxes, x_units, x_num, x_den, gap_num, y);
            let t = k - space_count(boxes, k);
            0 <= t < draws.len() && draws[t] == DrawModel {
                text: boxes[k].text,
                width: boxes[k].width,
                x_units: x_units + nonspace_advance(boxes, k),
                x_num: x_num + space_count(boxes, k) * gap_num,
                x_den,
                y,
            }
        }),
    decreases boxes.len(),
{
    lemma_space_count_bounds(boxes, k);
    lemma_line_draws_len(boxes, x_units, x_num, x_den, gap_num, y);
    lemma_space_count_bounds(boxes, boxes.len() as int);
    lemma_count_gap(boxes, k);
    let draws = line_draws(boxes, x_units, x_num, x_den, gap_num, y);
    let t = k - space_count(boxes, k);
    if k == 0 {
        assert(draws[0] == DrawModel {
            text: boxes[0].text,
            width: boxes[0].width,
            x_units,
            x_num,
            x_den,
            y,
        });
    } else {
        lemma_sums_shift(boxes, k - 1);
        assert(boxes.skip(1)[k - 1] == boxes[k]);
        if boxes[0].is_space() {
            lemma_line_draws_at(boxes.skip(1), x_units, x_num + gap_num, x_den, gap_num, y, k - 1);
            let tr = (k - 1) - space_count(boxes.skip(1), k - 1);
            assert(tr == t);
            assert((x_num + gap_num) + space_count(boxes.skip(1), k - 1) * gap_num == x_num
                + space_count(boxes, k) * gap_num) by (nonlinear_arith)
                requires
                    space_count(boxes, k) == 1 + space_count(boxes.skip(1), k - 1),
            ;
        } else {
            lemma_line_draws_at(
                boxes.skip(1),
                x_units + boxes[0].width,
                x_num,
                x_den,
                gap_num,
                y,
                k - 1,
            );
            let rest = line_draws(boxes.skip(1), x_units + boxes[0].width, x_num, x_den, gap_num, y);
            let tr = (k - 1) - space_count(boxes.skip(1), k - 1);
            assert(tr == t - 1);
            lemma_space_count_bounds(boxes.skip(1), k - 1);
            assert(t >= 1);
            assert(draws[t] == rest[t - 1]);
        }
    }
}

/// Index of the `t`-th non-separator box.
pub open spec fn nth_nonspace(boxes: Seq<BoxModel>, t: int) -> int
    decreases boxes.len(),
{
    if boxes.len() == 0 {
        0
    } else if !boxes[0].is_space() {
        if t <= 0 {
            0
        } else {
            1 + nth_nonspace(boxes.skip(1), t - 1)
        }
    } else {
        1 + nth_nonspace(boxes.skip(1), t)
    }
}

/// Every draw index `t` comes from the non-separator box at
/// `nth_nonspace(t)`.
proof fn lemma_nth_nonspace(boxes: Seq<BoxModel>, t: int)
    requires
        0 <= t < boxes.len() - space_count(boxes, boxes.len() as int),
    ensures
        ({
            let k = nth_nonspace(boxes, t);
            0 <= k < boxes.len() && !boxes[k].is_space() && k - space_count(boxes, k) == t
        }),
    decreases boxes.len(),
{
    lemma_sums_shift(boxes, boxes.len() - 1);
    if !boxes[0].is_space() {
        if t > 0 {
            lemma_nth_nonspace(boxes.skip(1), t - 1);
            let kr = nth_nonspace(boxes.skip(1), t - 1);
            lemma_sums_shift(boxes, kr);
            assert(boxes.skip(1)[kr] == boxes[1 + kr]);
        }
    } else {
        lemma_nth_nonspace(boxes.skip(1), t);
        let kr = nth_nonspace(boxes.skip(1), t);
        lemma_sums_shift(boxes, kr);
        assert(boxes.skip(1)[kr] == boxes[1 + kr]);
    }
}

/// Every non-separator box of the line was placed with its right edge
/// inside the region when rendered at base separator width.
pub open spec fn line_fit_ok(boxes: Seq<BoxModel>, space_width: int, region: RegionModel) -> bool {
    forall|k: int|
        0 <= k < boxes.len() && !(#[trigger] boxes[k]).is_space() ==> region.x + nonspace_advance(
            boxes,
            k,
        ) + space_count(boxes, k) * space_width + boxes[k].width <= region.right()
}

/// On a line with at least two non-separator boxes, the recorded slack is
/// the distance from the last non-separator box's right edge (at base
/// separator width) to the region's right edge.
pub open spec fn line_slack_ok(
    boxes: Seq<BoxModel>,
    slack: int,
    space_width: int,
    region: RegionModel,
) -> bool {
    nonspace_count(boxes) >= 2 ==> slack == region.right() - (region.x + nonspace_advance(
        boxes,
        last_nonspace(boxes) + 1,
    ) + space_count(boxes, last_nonspace(boxes) + 1) * space_width)
}

/// Every present non-separator box is no wider than the region.
pub open spec fn stream_fits(bs: Seq<Option<BoxModel>>, region: RegionModel) -> bool {
    forall|i: int|
        0 <= i < bs.len() ==> ((#[trigger] bs[i]) matches Option::Some(b) ==> (!b.is_space()
            ==> b.width <= region.width))
}

proof fn lemma_sums_push_all(boxes: Seq<BoxModel>, b: BoxModel)
    ensures
        nonspace_advance(boxes.push(b), boxes.len() as int) == nonspace_advance(
            boxes,
            boxes.len() as int,
        ),
        space_count(boxes.push(b), boxes.len() as int) == space_count(boxes, boxes.len() as int),
        nonspace_advance(boxes.push(b), boxes.len() as int + 1) == nonspace_advance(
            boxes,
            boxes.len() as int,
        ) + if b.is_space() {
            0int
        } else {
            b.width
        },
        space_count(boxes.push(b), boxes.len() as int + 1) == space_count(boxes, boxes.len() as int)
            + if b.is_space() {
            1int
        } else {
            0int
        },
{
    lemma_sums_push(boxes, b, boxes.len() as int);
    assert(boxes.push(b)[boxes.len() as int] == b);
    assert(nonspace_advance(boxes.push(b), boxes.len() as int + 1) == nonspace_advance(
        boxes.push(b),
        boxes.len() as int,
    ) + (if boxes.push(b)[boxes.len() as int].is_space() {
        0int
    } else {
        boxes.push(b)[boxes.len() as int].width
    }));
    assert(space_count(boxes.push(b), boxes.len() as int + 1) == space_count(
        boxes.push(b),
        boxes.len() as int,
    ) + (if boxes.push(b)[boxes.len() as int].is_space() {
        1int
    } else {
        0int
    }));
}

proof fn lemma_last_nonspace_bounds(boxes: Seq<BoxModel>)
    ensures
        -1 <= last_nonspace(boxes) < boxes.len(),
        nonspace_count(boxes) >= 1 ==> 0 <= last_nonspace(boxes) && !boxes[last_nonspace(
            boxes,
        )].is_space(),
    decreases boxes.len(),
{
    if boxes.len() > 0 {
        lemma_last_nonspace_bounds(boxes.drop_last());
        if boxes.last().is_space() {
            assert(boxes.drop_last()[last_nonspace(boxes.drop_last())] == boxes[last_nonspace(
                boxes,
            )] || nonspace_count(boxes) < 1);
        }
    }
}

/// While assembling a stream of boxes that each fit the region's width,
/// every line is built left to right from the region's left edge, no
/// placed box's right edge passes the region's right edge, and the
/// recorded slack measures the gap after the last non-separator box.
proof fn lemma_asm_run_fit(bs: Seq<Option<BoxModel>>, region: RegionModel, space_width: int)
    requires
        region.wf(),
        boxes_wf(bs),
        0 <= space_width <= region.width,
        stream_fits(bs, region),
    ensures
        ({
            let st = asm_run(bs, region, space_width);
            st.pen_x == region.x + nonspace_advance(st.cur, st.cur.len() as int) + space_count(
                st.cur,
                st.cur.len() as int,
            ) * space_width && line_fit_ok(st.cur, space_width, region) && line_slack_ok(
                st.cur,
                st.slack,
                space_width,
                region,
            ) && (forall|i: int|
                0 <= i < st.lines.len() ==> line_fit_ok(
                    (#[trigger] st.lines[i]).boxes,
                    space_width,
                    region,
                ) && line_slack_ok(st.lines[i].boxes, st.lines[i].slack, space_width, region))
        }),
    decreases bs.len(),
{
    let st = asm_run(bs, region, space_width);
    if bs.len() == 0 {
        assert(nonspace_advance(st.cur, 0) == 0);
        assert(space_count(st.cur, 0) == 0);
    } else {
        let bs0 = bs.drop_last();
        assert(boxes_wf(bs0));
        assert(stream_fits(bs0, region));
        lemma_asm_run_fit(bs0, region, space_width);
        let st0 = asm_run(bs0, region, space_width);
        assert(bs[bs.len() - 1] == bs.last());
        match bs.last() {
            Option::None => {},
            Option::Some(b) => {
                if !st0.overflowed {
                    assert(b.wf());
                    assert(!b.is_space() ==> b.width <= region.width);
                    let w = crate::assemble::effective_width(b, space_width);
                    let cur0 = st0.cur;
                    let n0 = cur0.len() as int;
                    if st0.pen_x + w <= region.right() {
                        let cur1 = cur0.push(b);
                        lemma_sums_push_all(cur0, b);
                        assert(cur1.drop_last() =~= cur0);
                        assert(cur1.last() == b);
                        if b.is_space() {
                            assert((space_count(cur0, n0) + 1) * space_width == space_count(
                                cur0,
                                n0,
                            ) * space_width + space_width) by (nonlinear_arith);
                            assert(last_nonspace(cur1) == last_nonspace(cur0));
                            assert(nonspace_count(cur1) == nonspace_count(cur0));
                            if nonspace_count(cur1) >= 2 {
                                lemma_last_nonspace_bounds(cur0);
                                lemma_sums_push(cur0, b, last_nonspace(cur0) + 1);
                            }
                            assert(line_fit_ok(cur1, space_width, region)) by {
                                assert forall|k: int|
                                    0 <= k < cur1.len() && !(#[trigger] cur1[k]).is_space()
                                    implies region.x + nonspace_advance(cur1, k) + space_count(
                                    cur1,
                                    k,
                                ) * space_width + cur1[k].width <= region.right() by {
                                    assert(k < n0);
                                    assert(cur1[k] == cur0[k]);
                                    lemma_sums_push(cur0, b, k);
                                }
                            }
                        } else {
                            assert(last_nonspace(cur1) == n0);
                            assert(line_fit_ok(cur1, space_width, region)) by {
                                assert forall|k: int|
                                    0 <= k < cur1.len() && !(#[trigger] cur1[k]).is_space()
                                    implies region.x + nonspace_advance(cur1, k) + space_count(
                                    cur1,
                                    k,
                                ) * space_width + cur1[k].width <= region.right() by {
                                    if k < n0 {
                                        assert(cur1[k] == cur0[k]);
                                        lemma_sums_push(cur0, b, k);
                                    } else {
                                        lemma_sums_push(cur0, b, n0);
                                        assert(cur1[k] == b);
                                    }
                                }
                            }
                            assert(line_slack_ok(cur1, st.slack, space_width, region)) by {
                                lemma_sums_push(cur0, b, n0);
                            }
                        }
                    } else {
                        assert forall|i: int| 0 <= i < st.lines.len() implies line_fit_ok(
                            (#[trigger] st.lines[i]).boxes,
                            space_width,
                            region,
                        ) && line_slack_ok(
                            st.lines[i].boxes,
                            st.lines[i].slack,
                            space_width,
                            region,
                        ) by {
                            if i < st0.lines.len() {
                                assert(st.lines[i] == st0.lines[i]);
                            } else {
                                assert(st.lines[i] == LineModel {
                                    boxes: st0.cur,
                                    slack: st0.slack,
                                });
                            }
                        }
                        let pen_y1 = st0.pen_y + region.lineskip;
                        if pen_y1 > region.bottom() || b.is_space() {
                            assert(st.cur =~= Seq::<BoxModel>::empty());
                            assert(nonspace_advance(st.cur, 0) == 0);
                            assert(space_count(st.cur, 0) == 0);
                            assert(nonspace_count(st.cur) == 0);
                        } else {
                            assert(st.cur == seq![b]);
                            assert(st.cur[0] == b);
                            assert(st.cur.drop_last() =~= Seq::<BoxModel>::empty());
                            assert(nonspace_count(st.cur.drop_last()) == 0);
                            assert(nonspace_count(st.cur) == 1);
                            assert(nonspace_advance(st.cur, 0) == 0);
                            assert(space_count(st.cur, 0) == 0);
                            assert(nonspace_advance(st.cur, 1) == b.width);
                            assert(space_count(st.cur, 1) == 0);
                            assert(line_fit_ok(st.cur, space_width, region)) by {
                                assert forall|k: int|
                                    0 <= k < st.cur.len() && !(#[trigger] st.cur[k]).is_space()
                                    implies region.x + nonspace_advance(st.cur, k) + space_count(
                                    st.cur,
                                    k,
                                ) * space_width + st.cur[k].width <= region.right() by {
                                    assert(k == 0);
                                }
                            }
                        }
                    }
                }
            },
        }
    }
}

/// Separators and other boxes strictly alternate, starting with a
/// non-separator: `boxes[j]` is a separator exactly at odd `j`.
pub open spec fn line_alternates(boxes: Seq<BoxModel>) -> bool {
    forall|j: int| 0 <= j < boxes.len() ==> ((#[trigger] boxes[j]).is_space() <==> j % 2 == 1)
}

/// A fully measured stream of strictly alternating boxes: words at even
/// positions, single separators between them.
pub open spec fn stream_alternates(bs: Seq<Option<BoxModel>>) -> bool {
    forall|i: int|
        0 <= i < bs.len() ==> ((#[trigger] bs[i]) matches Option::Some(b) && (b.is_space() <==> i
            % 2 == 1))
}

/// Assembling an alternating stream yields alternating lines.
proof fn lemma_asm_run_alt(bs: Seq<Option<BoxModel>>, region: RegionModel, space_width: int)
    requires
        region.wf(),
        boxes_wf(bs),
        0 <= space_width <= region.width,
        stream_fits(bs, region),
        stream_alternates(bs),
    ensures
        ({
            let st = asm_run(bs, region, space_width);
            line_alternates(st.cur) && (forall|i: int|
                0 <= i < st.lines.len() ==> line_alternates((#[trigger] st.lines[i]).boxes)) && (
            !st.overflowed && st.cur.len() > 0 ==> bs.len() > 0 && bs.last() == Option::Some(
                st.cur.last(),
            )) && (!st.overflowed && st.cur.len() == 0 ==> bs.len() == 0 || (bs.last()
                matches Option::Some(b) && b.is_space()))
        }),
    decreases bs.len(),
{
    let st = asm_run(bs, region, space_width);
    if bs.len() > 0 {
        let bs0 = bs.drop_last();
        assert(boxes_wf(bs0));
        assert(stream_fits(bs0, region));
        assert(stream_alternates(bs0));
        lemma_asm_run_alt(bs0, region, space_width);
        let st0 = asm_run(bs0, region, space_width);
        assert(bs[bs.len() - 1] == bs.last());
        match bs.last() {
            Option::None => {
                assert(false);
            },
            Option::Some(b) => {
                assert(b.is_space() <==> (bs.len() - 1) % 2 == 1);
                if !st0.overflowed {
                    let w = crate::assemble::effective_width(b, space_width);
                    let cur0 = st0.cur;
                    let n0 = cur0.len() as int;
                    if st0.pen_x + w <= region.right() {
                        // the box extends the open line; the stream's
                        // alternation carries over to the line
                        let cur1 = cur0.push(b);
                        if n0 > 0 {
                            assert(bs0.len() > 0 && bs0.last() == Option::Some(cur0.last()));
                            assert(bs0[bs0.len() - 1] == bs0.last());
                            assert(cur0.last().is_space() <==> (bs.len() - 2) % 2 == 1);
                            assert(cur0[n0 - 1] == cur0.last());
                            assert(cur0.last().is_space() <==> (n0 - 1) % 2 == 1);
                            assert(b.is_space() <==> n0 % 2 == 1);
                        } else {
                            if bs0.len() == 0 {
                                assert(!b.is_space());
                            } else {
                                assert(bs0.last() matches Option::Some(p) && p.is_space());
                                assert(bs0[bs0.len() - 1] == bs0.last());
                                assert((bs.len() - 2) % 2 == 1);
                                assert(!b.is_space());
                            }
                        }
                        assert(line_alternates(cur1)) by {
                            assert forall|j: int| 0 <= j < cur1.len() implies ((#[trigger]
                            cur1[j]).is_space() <==> j % 2 == 1) by {
                                if j < n0 {
                                    assert(cur1[j] == cur0[j]);
                                } else {
                                    assert(cur1[j] == b);
                                }
                            }
                        }
                        assert(cur1.last() == b);
                    } else {
                        assert forall|i: int| 0 <= i < st.lines.len() implies line_alternates(
                            (#[trigger] st.lines[i]).boxes,
                        ) by {
                            if i < st0.lines.len() {
                                assert(st.lines[i] == st0.lines[i]);
                            } else {
                                assert(st.lines[i] == LineModel {
                                    boxes: st0.cur,
                                    slack: st0.slack,
                                });
                            }
                        }
                        let pen_y1 = st0.pen_y + region.lineskip;
                        if pen_y1 > region.bottom() {
                        } else if b.is_space() {
                            assert(st.cur =~= Seq::<BoxModel>::empty());
                        } else {
                            assert(st.cur == seq![b]);
                            assert(st.cur[0] == b);
                            assert(st.cur.last() == b);
                        }
                    }
                }
            },
        }
    }
}

/// On an alternating prefix the separators are exactly the odd positions.
proof fn lemma_alt_counts(boxes: Seq<BoxModel>, k: int)
    requires
        line_alternates(boxes),
        0 <= k <= boxes.len(),
    ensures
        space_count(boxes, k) == k / 2,
    decreases k,
{
    if k > 0 {
        lemma_alt_counts(boxes, k - 1);
    }
}

/// The non-separator count equals the box count less the separator count.
proof fn lemma_nonspace_take_count(boxes: Seq<BoxModel>, k: int)
    requires
        0 <= k <= boxes.len(),
    ensures
        nonspace_count(boxes.take(k)) == k - space_count(boxes, k),
    decreases k,
{
    if k > 0 {
        lemma_nonspace_take_count(boxes, k - 1);
        assert(boxes.take(k).drop_last() =~= boxes.take(k - 1));
        assert(boxes.take(k).last() == boxes[k - 1]);
    } else {
        assert(boxes.take(0) =~= Seq::<BoxModel>::empty());
    }
}

/// On an alternating line the non-separator count is `(len + 1) / 2` and
/// the last non-separator box sits at position `2 * count - 2`.
proof fn lemma_alt_structure(boxes: Seq<BoxModel>)
    requires
        line_alternates(boxes),
        boxes.len() > 0,
    ensures
        nonspace_count(boxes) == (boxes.len() + 1) / 2,
        last_nonspace(boxes) == 2 * nonspace_count(boxes) - 2,
    decreases boxes.len(),
{
    lemma_nonspace_take_count(boxes, boxes.len() as int);
    lemma_alt_counts(boxes, boxes.len() as int);
    assert(boxes.take(boxes.len() as int) =~= boxes);
    if boxes.len() == 1 {
        assert(boxes.drop_last() =~= Seq::<BoxModel>::empty());
    } else {
        assert(line_alternates(boxes.drop_last())) by {
            assert forall|j: int| 0 <= j < boxes.drop_last().len() implies ((#[trigger]
            boxes.drop_last()[j]).is_space() <==> j % 2 == 1) by {
                assert(boxes.drop_last()[j] == boxes[j]);
            }
        }
        lemma_alt_structure(boxes.drop_last());
    }
}

/// Whether a draw's right edge stays inside the region: its exact
/// position plus width, scaled by its denominator, is at most the
/// region's right edge, equally scaled.
pub open spec fn draw_fits(d: DrawModel, region: RegionModel) -> bool {
    d.right_scaled() <= region.right() * d.x_den
}

/// All draws of one line, rendered with a given justification, fit.
pub open spec fn line_draws_fit(
    line: LineModel,
    i: int,
    region: RegionModel,
    space_width: int,
    justified: bool,
) -> bool {
    forall|t: int|
        0 <= t < draws_of_line(line, i, region, space_width, justified).len() ==> draw_fits(
            #[trigger] draws_of_line(line, i, region, space_width, justified)[t],
            region,
        )
}

/// A line whose boxes were placed within the right edge renders within
/// the right edge when its separators keep the base width.
proof fn lemma_ragged_line_fits(line: LineModel, i: int, region: RegionModel, space_width: int)
    requires
        line_fit_ok(line.boxes, space_width, region),
    ensures
        line_draws_fit(line, i, region, space_width, false),
{
    let boxes = line.boxes;
    let y = region.y + i * region.lineskip;
    let ds = draws_of_line(line, i, region, space_width, false);
    lemma_line_draws_len(boxes, region.x, 0, 1, space_width, y);
    assert forall|t: int| 0 <= t < ds.len() implies draw_fits(#[trigger] ds[t], region) by {
        lemma_nth_nonspace(boxes, t);
        let k = nth_nonspace(boxes, t);
        lemma_line_draws_at(boxes, region.x, 0, 1, space_width, y, k);
        assert(ds[t] == DrawModel {
            text: boxes[k].text,
            width: boxes[k].width,
            x_units: region.x + nonspace_advance(boxes, k),
            x_num: space_count(boxes, k) * space_width,
            x_den: 1,
            y,
        });
        assert(ds[t].right_scaled() == region.x + nonspace_advance(boxes, k) + boxes[k].width
            + space_count(boxes, k) * space_width) by (nonlinear_arith)
            requires
                ds[t].x_den == 1,
                ds[t].x_units == region.x + nonspace_advance(boxes, k),
                ds[t].width == boxes[k].width,
                ds[t].x_num == space_count(boxes, k) * space_width,
        ;
    }
}

/// On a justified alternating line the last draw ends exactly on the
/// region's right edge.
#[verifier::rlimit(50)]
proof fn lemma_justified_line_flush(line: LineModel, i: int, region: RegionModel, space_width: int)
    requires
        line_alternates(line.boxes),
        line_fit_ok(line.boxes, space_width, region),
        line_slack_ok(line.boxes, line.slack, space_width, region),
        nonspace_count(line.boxes) >= 2,
        0 <= line.slack,
        0 <= space_width,
        forall|j: int| 0 <= j < line.boxes.len() ==> (#[trigger] line.boxes[j]).wf(),
    ensures
        ({
            let ds = draws_of_line(line, i, region, space_width, true);
            ds.len() >= 1 && ds.last().right_scaled() == region.right() * ds.last().x_den
        }),
{
    let boxes = line.boxes;
    let n = nonspace_count(boxes);
    let den = n - 1;
    let gap = space_width * den + line.slack;
    let y = region.y + i * region.lineskip;
    let ds = draws_of_line(line, i, region, space_width, true);
    assert(ds == line_draws(boxes, region.x, 0, den, gap, y));
    lemma_alt_structure(boxes);
    let lnz = last_nonspace(boxes);
    assert(lnz == 2 * n - 2);
    lemma_line_draws_len(boxes, region.x, 0, den, gap, y);
    lemma_alt_counts(boxes, boxes.len() as int);
    assert(ds.len() == boxes.len() - boxes.len() as int / 2);
    assert(ds.len() == n);
    lemma_alt_counts(boxes, lnz + 1);
    assert(space_count(boxes, lnz + 1) == den);
    let e_last = region.x + nonspace_advance(boxes, lnz + 1) + space_count(boxes, lnz + 1)
        * space_width;
    assert(line.slack == region.right() - e_last);
    assert(ds.last() == ds[n - 1]);
    assert(ds.last().right_scaled() == region.right() * ds.last().x_den) by {
        let t = n - 1;
        let k = 2 * t;
        lemma_alt_counts(boxes, k);
        lemma_line_draws_at(boxes, region.x, 0, den, gap, y, k);
        lemma_alt_counts(boxes, k + 1);
        assert(nonspace_advance(boxes, k + 1) == nonspace_advance(boxes, k) + boxes[k].width);
        assert(ds[t].right_scaled() == e_last * den + t * line.slack) by (nonlinear_arith)
            requires
                ds[t].x_den == den,
                ds[t].x_units == region.x + nonspace_advance(boxes, k),
                ds[t].width == boxes[k].width,
                ds[t].x_num == t * gap,
                gap == space_width * den + line.slack,
                e_last == region.x + nonspace_advance(boxes, k) + boxes[k].width + t
                    * space_width,
                space_count(boxes, k + 1) == t,
                nonspace_advance(boxes, k + 1) == nonspace_advance(boxes, k) + boxes[k].width,
        ;
        assert(e_last * den + t * line.slack == region.right() * den) by (nonlinear_arith)
            requires
                e_last == region.right() - line.slack,
                t == den,
        ;
    }
}

/// If every line's draws fit, every draw of the first `k` lines fits.
proof fn lemma_emit_prefix_fits(
    lines: Seq<LineModel>,
    k: int,
    region: RegionModel,
    space_width: int,
    mode: JustifyMode,
    overflowed: bool,
)
    requires
        k <= lines.len(),
        forall|i: int|
            0 <= i < k ==> line_draws_fit(
                #[trigger] lines[i],
                i,
                region,
                space_width,
                line_justified(lines[i], i, lines.len() as int, mode, overflowed),
            ),
    ensures
        forall|t: int|
            0 <= t < emit_prefix(lines, k, region, space_width, mode, overflowed).len()
                ==> draw_fits(
                #[trigger] emit_prefix(lines, k, region, space_width, mode, overflowed)[t],
                region,
            ),
    decreases k,
{
    if k > 0 {
        lemma_emit_prefix_fits(lines, k - 1, region, space_width, mode, overflowed);
        let justified = line_justified(lines[k - 1], k - 1, lines.len() as int, mode, overflowed);
        let whole = emit_prefix(lines, k, region, space_width, mode, overflowed);
        let pre = emit_prefix(lines, k - 1, region, space_width, mode, overflowed);
        let dl = draws_of_line(lines[k - 1], k - 1, region, space_width, justified);
        assert(whole == pre + dl);
        assert forall|t: int| 0 <= t < whole.len() implies draw_fits(
            #[trigger] whole[t],
            region,
        ) by {
            if t < pre.len() {
                assert(whole[t] == pre[t]);
            } else {
                assert(whole[t] == dl[t - pre.len()]);
            }
        }
    }
}

/// Helper: the facts about the result lines that the fit laws share.
proof fn lemma_result_lines_facts(bs: Seq<Option<BoxModel>>, region: RegionModel, space_width: int)
    requires
        region.wf(),
        boxes_wf(bs),
        0 <= space_width <= region.width,
        stream_fits(bs, region),
    ensures
        ({
            let lines = asm_result(bs, region, space_width).0;
            forall|i: int|
                0 <= i < lines.len() ==> line_fit_ok((#[trigger] lines[i]).boxes, space_width, region)
                    && line_slack_ok(lines[i].boxes, lines[i].slack, space_width, region)
                    && lines[i].wf()
        }),
{
    lemma_asm_run_fit(bs, region, space_width);
    crate::assemble::lemma_asm_run_wf(bs, region, space_width);
    let st = asm_run(bs, region, space_width);
    let lines = asm_result(bs, region, space_width).0;
    assert forall|i: int| 0 <= i < lines.len() implies line_fit_ok(
        (#[trigger] lines[i]).boxes,
        space_width,
        region,
    ) && line_slack_ok(lines[i].boxes, lines[i].slack, space_width, region) && lines[i].wf() by {
        if !st.overflowed && i == st.lines.len() as int {
            assert(lines[i] == LineModel { boxes: st.cur, slack: st.slack });
        } else {
            assert(lines[i] == st.lines[i]);
        }
    }
}

/// In ragged mode, no emitted draw passes the region's right edge, as
/// long as each box and the base separator fit the region's width on
/// their own.
pub proof fn law_ragged_lines_fit(bs: Seq<Option<BoxModel>>, region: RegionModel, space_width: int)
    requires
        region.wf(),
        boxes_wf(bs),
        0 <= space_width <= region.width,
        stream_fits(bs, region),
    ensures
        forall|t: int|
            0 <= t < layout_model(bs, region, space_width, JustifyMode::Ragged).len() ==> draw_fits(
                #[trigger] layout_model(bs, region, space_width, JustifyMode::Ragged)[t],
                region,
            ),
{
    lemma_result_lines_facts(bs, region, space_width);
    let r = asm_result(bs, region, space_width);
    let lines = r.0;
    assert forall|i: int| 0 <= i < lines.len() implies line_draws_fit(
        #[trigger] lines[i],
        i,
        region,
        space_width,
        line_justified(lines[i], i, lines.len() as int, JustifyMode::Ragged, r.1),
    ) by {
        lemma_ragged_line_fits(lines[i], i, region, space_width);
    }
    lemma_emit_prefix_fits(
        lines,
        lines.len() as int,
        region,
        space_width,
        JustifyMode::Ragged,
        r.1,
    );
}

/// In unragged mode, for a fully measured stream in which no separator
/// comes first and no two separators are adjacent, no emitted draw
/// passes the region's right edge: justification widens the gaps but
/// never overfills a line.
pub proof fn law_unragged_lines_fit(
    bs: Seq<Option<BoxModel>>,
    region: RegionModel,
    space_width: int,
)
    requires
        region.wf(),
        boxes_wf(bs),
        0 <= space_width <= region.width,
        stream_fits(bs, region),
        stream_disciplined(bs),
    ensures
        forall|t: int|
            0 <= t < layout_model(bs, region, space_width, JustifyMode::Unragged).len()
                ==> draw_fits(
                #[trigger] layout_model(bs, region, space_width, JustifyMode::Unragged)[t],
                region,
            ),
{
    lemma_result_lines_facts(bs, region, space_width);
    lemma_asm_run_disc(bs, region, space_width);
    let st = asm_run(bs, region, space_width);
    let r = asm_result(bs, region, space_width);
    let lines = r.0;
    assert forall|i: int| 0 <= i < lines.len() implies line_draws_fit(
        #[trigger] lines[i],
        i,
        region,
        space_width,
        line_justified(lines[i], i, lines.len() as int, JustifyMode::Unragged, r.1),
    ) by {
        assert(line_disciplined(lines[i].boxes)) by {
            if !st.overflowed && i == st.lines.len() as int {
                assert(lines[i] == LineModel { boxes: st.cur, slack: st.slack });
            } else {
                assert(lines[i] == st.lines[i]);
            }
        }
        if line_justified(lines[i], i, lines.len() as int, JustifyMode::Unragged, r.1) {
            lemma_justified_line_fits_disc(lines[i], i, region, space_width);
        } else {
            lemma_ragged_line_fits(lines[i], i, region, space_width);
        }
    }
    lemma_emit_prefix_fits(
        lines,
        lines.len() as int,
        region,
        space_width,
        JustifyMode::Unragged,
        r.1,
    );
}

/// In unragged mode, for a fully measured stream of words separated by
/// single separators, every justified line is flush: its last draw's
/// right edge lands exactly on the region's right edge.
pub proof fn law_justified_lines_flush(
    bs: Seq<Option<BoxModel>>,
    region: RegionModel,
    space_width: int,
)
    requires
        region.wf(),
        boxes_wf(bs),
        0 <= space_width <= region.width,
        stream_fits(bs, region),
        stream_alternates(bs),
    ensures
        ({
            let r = asm_result(bs, region, space_width);
            forall|i: int|
                0 <= i < r.0.len() && line_justified(
                    #[trigger] r.0[i],
                    i,
                    r.0.len() as int,
                    JustifyMode::Unragged,
                    r.1,
                ) ==> ({
                    let ds = draws_of_line(r.0[i], i, region, space_width, true);
                    ds.len() >= 1 && ds.last().right_scaled() == region.right() * ds.last().x_den
                })
        }),
{
    lemma_result_lines_facts(bs, region, space_width);
    lemma_asm_run_alt(bs, region, space_width);
    let st = asm_run(bs, region, space_width);
    let r = asm_result(bs, region, space_width);
    let lines = r.0;
    assert forall|i: int|
        0 <= i < lines.len() && line_justified(
            #[trigger] lines[i],
            i,
            lines.len() as int,
            JustifyMode::Unragged,
            r.1,
        ) implies ({
        let ds = draws_of_line(lines[i], i, region, space_width, true);
        ds.len() >= 1 && ds.last().right_scaled() == region.right() * ds.last().x_den
    }) by {
        assert(line_alternates(lines[i].boxes)) by {
            if !st.overflowed && i == st.lines.len() as int {
                assert(lines[i] == LineModel { boxes: st.cur, slack: st.slack });
            } else {
                assert(lines[i] == st.lines[i]);
            }
        }
        lemma_justified_line_flush(lines[i], i, region, space_width);
    }
}

/// No separator opens the line and no two separators sit side by side.
pub open spec fn line_disciplined(boxes: Seq<BoxModel>) -> bool {
    (boxes.len() > 0 ==> !boxes[0].is_space()) && (forall|j: int|
        1 <= j < boxes.len() && (#[trigger] boxes[j]).is_space() ==> !boxes[j - 1].is_space())
}

/// A fully measured stream in which no separator comes first and no two
/// separators are adjacent: ordinary text of any script mix.
pub open spec fn stream_disciplined(bs: Seq<Option<BoxModel>>) -> bool {
    (forall|i: int| 0 <= i < bs.len() ==> (#[trigger] bs[i]) is Some) && (bs.len() > 0
        ==> !bs[0]->Some_0.is_space()) && (forall|i: int|
        1 <= i < bs.len() && (#[trigger] bs[i])->Some_0.is_space() ==> !bs[i
            - 1]->Some_0.is_space())
}

/// Assembling a disciplined stream yields disciplined lines.
proof fn lemma_asm_run_disc(bs: Seq<Option<BoxModel>>, region: RegionModel, space_width: int)
    requires
        region.wf(),
        boxes_wf(bs),
        0 <= space_width <= region.width,
        stream_fits(bs, region),
        stream_disciplined(bs),
    ensures
        ({
            let st = asm_run(bs, region, space_width);
            line_disciplined(st.cur) && (forall|i: int|
                0 <= i < st.lines.len() ==> line_disciplined((#[trigger] st.lines[i]).boxes)) && (
            !st.overflowed && st.cur.len() > 0 ==> bs.len() > 0 && bs.last() == Option::Some(
                st.cur.last(),
            )) && (!st.overflowed && st.cur.len() == 0 ==> bs.len() == 0 || (bs.last()
                matches Option::Some(b) && b.is_space()))
        }),
    decreases bs.len(),
{
    let st = asm_run(bs, region, space_width);
    if bs.len() > 0 {
        let bs0 = bs.drop_last();
        assert(boxes_wf(bs0));
        assert(stream_fits(bs0, region));
        assert(stream_disciplined(bs0));
        lemma_asm_run_disc(bs0, region, space_width);
        let st0 = asm_run(bs0, region, space_width);
        assert(bs[bs.len() - 1] == bs.last());
        match bs.last() {
            Option::None => {
                assert(false);
            },
            Option::Some(b) => {
                if !st0.overflowed {
                    let w = crate::assemble::effective_width(b, space_width);
                    let cur0 = st0.cur;
                    let n0 = cur0.len() as int;
                    if st0.pen_x + w <= region.right() {
                        let cur1 = cur0.push(b);
                        if n0 > 0 {
                            assert(bs0.len() > 0 && bs0.last() == Option::Some(cur0.last()));
                            assert(bs0[bs0.len() - 1] == bs0.last());
                            assert(cur0[n0 - 1] == cur0.last());
                            assert(b.is_space() ==> !cur0.last().is_space());
                        } else {
                            // an empty open line follows either nothing or
                            // a discarded separator; either way the next
                            // box of a disciplined stream is a word
                            if bs0.len() == 0 {
                                assert(!b.is_space());
                            } else {
                                assert(bs0.last() matches Option::Some(p) && p.is_space());
                                assert(bs0[bs0.len() - 1] == bs0.last());
                                assert(!b.is_space());
                            }
                        }
                        assert(line_disciplined(cur1)) by {
                            assert(cur1[0] == if n0 > 0 {
                                cur0[0]
                            } else {
                                b
                            });
                            assert forall|j: int|
                                1 <= j < cur1.len() && (#[trigger] cur1[j]).is_space() implies !cur1[j
                                - 1].is_space() by {
                                if j < n0 {
                                    assert(cur1[j] == cur0[j]);
                                    assert(cur1[j - 1] == cur0[j - 1]);
                                } else {
                                    assert(cur1[j] == b);
                                    assert(cur1[j - 1] == cur0[j - 1]);
                                }
                            }
                        }
                        assert(cur1.last() == b);
                    } else {
                        assert forall|i: int| 0 <= i < st.lines.len() implies line_disciplined(
                            (#[trigger] st.lines[i]).boxes,
                        ) by {
                            if i < st0.lines.len() {
                                assert(st.lines[i] == st0.lines[i]);
                            } else {
                                assert(st.lines[i] == LineModel {
                                    boxes: st0.cur,
                                    slack: st0.slack,
                                });
                            }
                        }
                        let pen_y1 = st0.pen_y + region.lineskip;
                        if pen_y1 > region.bottom() {
                        } else if b.is_space() {
                            assert(st.cur =~= Seq::<BoxModel>::empty());
                        } else {
                            assert(st.cur == seq![b]);
                            assert(st.cur[0] == b);
                            assert(st.cur.last() == b);
                        }
                    }
                }
            },
        }
    }
}

/// Every box past the last non-separator box is a separator.
proof fn lemma_last_nonspace_after(boxes: Seq<BoxModel>)
    ensures
        forall|j: int|
            last_nonspace(boxes) < j < boxes.len() ==> (#[trigger] boxes[j]).is_space(),
    decreases boxes.len(),
{
    if boxes.len() > 0 {
        lemma_last_nonspace_bounds(boxes);
        lemma_last_nonspace_after(boxes.drop_last());
        assert forall|j: int|
            last_nonspace(boxes) < j < boxes.len() implies (#[trigger] boxes[j]).is_space() by {
            if j < boxes.len() - 1 {
                assert(boxes.drop_last()[j] == boxes[j]);
            }
        }
    }
}

/// A run of separators raises the separator count one per box.
proof fn lemma_all_space_count(boxes: Seq<BoxModel>, a: int, b: int)
    requires
        0 <= a <= b <= boxes.len(),
        forall|j: int| a <= j < b ==> (#[trigger] boxes[j]).is_space(),
    ensures
        space_count(boxes, b) - space_count(boxes, a) == b - a,
    decreases b - a,
{
    if a < b {
        lemma_all_space_count(boxes, a, b - 1);
    }
}

/// On a disciplined prefix the separators are at most half the boxes.
proof fn lemma_disc_count(boxes: Seq<BoxModel>, k: int)
    requires
        line_disciplined(boxes),
        0 <= k <= boxes.len(),
    ensures
        2 * space_count(boxes, k) <= k,
    decreases k,
{
    if k >= 2 {
        lemma_disc_count(boxes, k - 2);
        assert(space_count(boxes, k - 1) == space_count(boxes, k - 2) + (if boxes[k
            - 2].is_space() {
            1int
        } else {
            0int
        }));
        assert(space_count(boxes, k) == space_count(boxes, k - 1) + (if boxes[k - 1].is_space() {
            1int
        } else {
            0int
        }));
        if boxes[k - 1].is_space() {
            assert(!boxes[k - 2].is_space());
        }
    } else if k == 1 {
        assert(space_count(boxes, 1) == space_count(boxes, 0) + (if boxes[0].is_space() {
            1int
        } else {
            0int
        }));
        assert(!boxes[0].is_space());
    }
}

/// A justified disciplined line renders within the right edge.
#[verifier::rlimit(50)]
proof fn lemma_justified_line_fits_disc(
    line: LineModel,
    i: int,
    region: RegionModel,
    space_width: int,
)
    requires
        line_disciplined(line.boxes),
        line_fit_ok(line.boxes, space_width, region),
        line_slack_ok(line.boxes, line.slack, space_width, region),
        nonspace_count(line.boxes) >= 2,
        0 <= line.slack,
        0 <= space_width,
        forall|j: int| 0 <= j < line.boxes.len() ==> (#[trigger] line.boxes[j]).wf(),
    ensures
        line_draws_fit(line, i, region, space_width, true),
{
    let boxes = line.boxes;
    let len = boxes.len() as int;
    let n = nonspace_count(boxes);
    let den = n - 1;
    let gap = space_width * den + line.slack;
    let y = region.y + i * region.lineskip;
    let ds = draws_of_line(line, i, region, space_width, true);
    assert(ds == line_draws(boxes, region.x, 0, den, gap, y));
    lemma_line_draws_len(boxes, region.x, 0, den, gap, y);
    lemma_nonspace_take_count(boxes, len);
    assert(boxes.take(len) =~= boxes);
    assert(ds.len() == n);
    lemma_last_nonspace_bounds(boxes);
    let lnz = last_nonspace(boxes);
    lemma_last_nonspace_after(boxes);
    lemma_all_space_count(boxes, lnz + 1, len);
    assert(space_count(boxes, lnz + 1) == space_count(boxes, lnz));
    // the last non-separator box is the (n-1)-th: the trailing boxes are
    // all separators, so the counts balance out
    assert(lnz - space_count(boxes, lnz) == n - 1);
    let e_last = region.x + nonspace_advance(boxes, lnz + 1) + space_count(boxes, lnz + 1)
        * space_width;
    assert(line.slack == region.right() - e_last);
    assert forall|t: int| 0 <= t < ds.len() implies draw_fits(#[trigger] ds[t], region) by {
        lemma_nth_nonspace(boxes, t);
        let k = nth_nonspace(boxes, t);
        assert(k <= lnz);
        lemma_line_draws_at(boxes, region.x, 0, den, gap, y, k);
        let sk = space_count(boxes, k);
        assert(ds[t] == DrawModel {
            text: boxes[k].text,
            width: boxes[k].width,
            x_units: region.x + nonspace_advance(boxes, k),
            x_num: sk * gap,
            x_den: den,
            y,
        });
        assert(sk == k - t);
        // the separators before a word never outnumber the words before
        // it, which number at most n - 1
        lemma_disc_count(boxes, k);
        lemma_space_count_bounds(boxes, k);
        assert(sk <= t);
        assert(t <= den);
        assert(0 <= sk <= den);
        assert(space_count(boxes, k + 1) == sk);
        assert(nonspace_advance(boxes, k + 1) == nonspace_advance(boxes, k) + boxes[k].width);
        let e_t = region.x + nonspace_advance(boxes, k + 1) + space_count(boxes, k + 1)
            * space_width;
        lemma_sums_monotone(boxes, space_width, k + 1, lnz + 1);
        assert(e_t <= e_last);
        assert(ds[t].right_scaled() == e_t * den + sk * line.slack) by (nonlinear_arith)
            requires
                ds[t].x_den == den,
                ds[t].x_units == region.x + nonspace_advance(boxes, k),
                ds[t].width == boxes[k].width,
                ds[t].x_num == sk * gap,
                gap == space_width * den + line.slack,
                e_t == region.x + nonspace_advance(boxes, k) + boxes[k].width + sk * space_width,
        ;
        assert(e_t * den + sk * line.slack <= region.right() * den) by (nonlinear_arith)
            requires
                e_t <= e_last,
                e_last == region.right() - line.slack,
                0 <= sk <= den,
                1 <= den,
                0 <= line.slack,
        ;
    }
}

} // verus!
