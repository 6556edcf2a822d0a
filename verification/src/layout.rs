//! The layout entry point: region validation, color parsing, greedy line
//! assembly, justification and emission in sequence.

use vstd::prelude::*;
use crate::assemble::{
    asm_result, assemble_lines, boxes_wf, lemma_asm_run_wf, view_boxes, Line, LineModel,
};
use crate::color::{color_of_text, is_valid_color_text, parse_color, LayoutError, RgbColor};
use crate::emit::{emit_draws, emit_model, DrawCmd, DrawModel};
use crate::metrics::{BoxModel, TokenBox};
use crate::region::{JustifyMode, Region, RegionModel};
use crate::MAX_BOXES;
use crate::MAX_DIM;

verus! {

/// Whether the region's dimensions admit a layout: width, height and
/// line advance must all be positive.
pub open spec fn region_dims_valid(r: RegionModel) -> bool {
    r.width > 0 && r.height > 0 && r.lineskip > 0
}

/// The draws a layout of `bs` into `region` produces.
pub open spec fn layout_model(
    bs: Seq<Option<BoxModel>>,
    region: RegionModel,
    space_width: int,
    mode: JustifyMode,
) -> Seq<DrawModel> {
    let r = asm_result(bs, region, space_width);
    emit_model(r.0, region, space_width, mode, r.1)
}

/// Lays the measured boxes out into the region. Returns the region's fill
/// color and the positioned draw calls; fails with `InvalidRegion` when a
/// region dimension is not positive, and otherwise with `MalformedColor`
/// when the fill color is not a `#RRGGBB` text. Per-token measurement
/// failures (absent boxes) never fail the call: they are skipped.
pub fn layout(
    boxes: &Vec<Option<TokenBox>>,
    region: &Region,
    space_width: i64,
    mode: JustifyMode,
) -> (r: Result<(RgbColor, Vec<DrawCmd>), LayoutError>)
    requires
        region@.wf(),
        0 <= space_width <= MAX_DIM,
        boxes_wf(view_boxes(boxes@)),
    ensures
        !region_dims_valid(region@) ==> r == Err::<(RgbColor, Vec<DrawCmd>), LayoutError>(
            LayoutError::InvalidRegion,
        ),
        region_dims_valid(region@) && !is_valid_color_text(region@.color) ==> r == Err::<
            (RgbColor, Vec<DrawCmd>),
            LayoutError,
        >(LayoutError::MalformedColor),
        region_dims_valid(region@) && is_valid_color_text(region@.color) ==> (r matches Ok(p)
            && p.0 == color_of_text(region@.color) && p.1@.map_values(|d: DrawCmd| d@)
            == layout_model(view_boxes(boxes@), region@, space_width as int, mode)),
{
    if region.width <= 0 || region.height <= 0 || region.lineskip <= 0 {
        return Err(LayoutError::InvalidRegion);
    }
    let color = match parse_color(&region.color) {
        Ok(c) => c,
        Err(e) => {
            return Err(e);
        },
    };
    let ghost bs = view_boxes(boxes@);
    let assembled = assemble_lines(boxes, region, space_width);
    let lines = assembled.0;
    let overflowed = assembled.1;
    proof {
        lemma_asm_run_wf(bs, region@, space_width as int);
        assert(lines@.map_values(|l: Line| l@) == asm_result(bs, region@, space_width as int).0);
        assert(lines@.len() <= MAX_BOXES + 1);
        assert forall|i: int| 0 <= i < lines@.len() implies (#[trigger] lines@[i])@.wf() by {
            assert(lines@.map_values(|l: Line| l@)[i] == lines@[i]@);
        }
    }
    let draws = emit_draws(&lines, region, space_width, mode, overflowed);
    Ok((color, draws))
}

} // verus!
