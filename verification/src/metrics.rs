//! Token box metrics, reduced from per-glyph shaping output.
//!
//! A shaping engine returns one advance/offset record per glyph, in 26.6
//! fixed-point units. A token box's width and height are the sums of the
//! glyph advances along each axis; its offsets are the maxima of the glyph
//! offsets (never below zero), not their sums.

use vstd::prelude::*;
use crate::segment::{Token, TokenKind};
use crate::MAX_DIM;
use crate::MAX_BOXES;

verus! {

/// One glyph's advances and offsets in 26.6 units, as a shaping engine
/// reports them.
#[derive(Clone, Copy, Debug)]
pub struct GlyphPos {
    pub x_advance: i64,
    pub y_advance: i64,
    pub x_offset: i64,
    pub y_offset: i64,
}

/// The measured metrics of one token box, in 26.6 units.
#[derive(Clone, Copy, Debug)]
pub struct BoxMetrics {
    /// Advance width: sum of the glyph x-advances.
    pub width: i64,
    /// Advance height: sum of the glyph y-advances.
    pub height: i64,
    /// Maximum glyph x-offset from the pen position, at least zero.
    pub x_offset: i64,
    /// Maximum glyph y-offset from the pen position, at least zero.
    pub y_offset: i64,
}

/// A token paired with its measured metrics.
#[derive(Debug)]
pub struct TokenBox {
    pub token: Token,
    pub metrics: BoxMetrics,
}

/// The mathematical value of a measured box.
pub ghost struct BoxModel {
    pub text: Seq<char>,
    pub kind: TokenKind,
    pub width: int,
    pub height: int,
    pub x_offset: int,
    pub y_offset: int,
}

impl View for TokenBox {
    type V = BoxModel;

    open spec fn view(&self) -> BoxModel {
        BoxModel {
            text: self.token.text@,
            kind: self.token.kind,
            width: self.metrics.width as int,
            height: self.metrics.height as int,
            x_offset: self.metrics.x_offset as int,
            y_offset: self.metrics.y_offset as int,
        }
    }
}

impl TokenBox {
    /// An owned copy with the same token and metrics.
    pub fn duplicate(&self) -> (r: TokenBox)
        ensures
            r@ == self@,
    {
        TokenBox { token: self.token.duplicate(), metrics: self.metrics }
    }

    /// Whether this box is a separator.
    pub fn is_space(&self) -> (r: bool)
        ensures
            r == self@.is_space(),
    {
        self.token.kind == TokenKind::Space
    }
}

impl BoxModel {
    /// Whether this box is a separator.
    pub open spec fn is_space(self) -> bool {
        self.kind is Space
    }

    /// Metric bounds under which all position arithmetic stays exact.
    pub open spec fn wf(self) -> bool {
        0 <= self.width <= MAX_DIM && 0 <= self.height <= MAX_DIM
    }
}

/// Sum of the glyph x-advances of `g`.
pub open spec fn sum_x_advance(g: Seq<GlyphPos>) -> int
    decreases g.len(),
{
    if g.len() == 0 {
        0
    } else {
        sum_x_advance(g.drop_last()) + g.last().x_advance
    }
}

/// Sum of the glyph y-advances of `g`.
pub open spec fn sum_y_advance(g: Seq<GlyphPos>) -> int
    decreases g.len(),
{
    if g.len() == 0 {
        0
    } else {
        sum_y_advance(g.drop_last()) + g.last().y_advance
    }
}

/// Maximum of the glyph x-offsets of `g` and zero.
pub open spec fn max_x_offset(g: Seq<GlyphPos>) -> int
    decreases g.len(),
{
    if g.len() == 0 {
        0
    } else {
        let m = max_x_offset(g.drop_last());
        if g.last().x_offset > m {
            g.last().x_offset as int
        } else {
            m
        }
    }
}

/// Maximum of the glyph y-offsets of `g` and zero.
pub open spec fn max_y_offset(g: Seq<GlyphPos>) -> int
    decreases g.len(),
{
    if g.len() == 0 {
        0
    } else {
        let m = max_y_offset(g.drop_last());
        if g.last().y_offset > m {
            g.last().y_offset as int
        } else {
            m
        }
    }
}

/// Glyph records small enough that their sums stay within bounds.
pub open spec fn glyphs_wf(g: Seq<GlyphPos>) -> bool {
    g.len() <= MAX_BOXES && (forall|i: int|
        0 <= i < g.len() ==> {
            let p = #[trigger] g[i];
            -MAX_DIM <= p.x_advance <= MAX_DIM && -MAX_DIM <= p.y_advance <= MAX_DIM
                && -MAX_DIM <= p.x_offset <= MAX_DIM && -MAX_DIM <= p.y_offset <= MAX_DIM
        })
}

proof fn lemma_advance_sum_bounds(g: Seq<GlyphPos>)
    requires
        glyphs_wf(g),
    ensures
        -(g.len() as int) * MAX_DIM <= sum_x_advance(g) <= (g.len() as int) * MAX_DIM,
        -(g.len() as int) * MAX_DIM <= sum_y_advance(g) <= (g.len() as int) * MAX_DIM,
    decreases g.len(),
{
    if g.len() > 0 {
        assert(glyphs_wf(g.drop_last()));
        lemma_advance_sum_bounds(g.drop_last());
    }
}

/// Reduces a token's per-glyph shaping records to its box metrics:
/// advances are summed, offsets are reduced by taking the maximum.
pub fn metrics_from_glyphs(glyphs: &Vec<GlyphPos>) -> (m: BoxMetrics)
    requires
        glyphs_wf(glyphs@),
    ensures
        m.width == sum_x_advance(glyphs@),
        m.height == sum_y_advance(glyphs@),
        m.x_offset == max_x_offset(glyphs@),
        m.y_offset == max_y_offset(glyphs@),
{
    let ghost g = glyphs@;
    let n = glyphs.len();
    let mut width: i64 = 0;
    let mut height: i64 = 0;
    let mut x_offset: i64 = 0;
    let mut y_offset: i64 = 0;
    let mut i: usize = 0;
    while i < n
        invariant
            g == glyphs@,
            n == g.len(),
            glyphs_wf(g),
            i <= n,
            width == sum_x_advance(g.take(i as int)),
            height == sum_y_advance(g.take(i as int)),
            x_offset == max_x_offset(g.take(i as int)),
            y_offset == max_y_offset(g.take(i as int)),
        decreases n - i,
    {
        proof {
            assert(glyphs_wf(g.take(i as int)));
            lemma_advance_sum_bounds(g.take(i as int));
            assert(g.take(i as int).len() as int * MAX_DIM <= (MAX_BOXES as int) * MAX_DIM);
            assert(g.take(i + 1).drop_last() =~= g.take(i as int));
            assert(g.take(i + 1).last() == g[i as int]);
        }
        let p = glyphs[i];
        width = width + p.x_advance;
        height = height + p.y_advance;
        if p.x_offset > x_offset {
            x_offset = p.x_offset;
        }
        if p.y_offset > y_offset {
            y_offset = p.y_offset;
        }
        i = i + 1;
    }
    proof {
        assert(g.take(n as int) =~= g);
    }
    BoxMetrics { width, height, x_offset, y_offset }
}


/// Compares two character vectors for equality.
fn chars_eq(a: &Vec<char>, b: &Vec<char>) -> (r: bool)
    ensures
        r == (a@ == b@),
{
    if a.len() != b.len() {
        return false;
    }
    let n = a.len();
    let mut i: usize = 0;
    while i < n
        invariant
            n == a@.len(),
            n == b@.len(),
            i <= n,
            forall|k: int| 0 <= k < i ==> a@[k] == b@[k],
        decreases n - i,
    {
        if a[i] != b[i] {
            return false;
        }
        i = i + 1;
    }
    proof {
        assert(a@ =~= b@);
    }
    true
}

/// Memoizes measured box metrics per token text within one layout call,
/// so that each unique text is measured once. A failed measurement
/// (absent metrics) is remembered too.
pub struct MetricCache {
    texts: Vec<Vec<char>>,
    metrics: Vec<Option<BoxMetrics>>,
}

impl MetricCache {
    /// Keys are distinct and paired one-to-one with values.
    pub closed spec fn wf(&self) -> bool {
        self.texts@.len() == self.metrics@.len() && (forall|i: int, j: int|
            0 <= i < j < self.texts@.len() ==> (#[trigger] self.texts@[i])@ != (
            #[trigger] self.texts@[j])@)
    }

    /// Whether a text has been measured already.
    pub closed spec fn spec_contains(&self, k: Seq<char>) -> bool {
        exists|i: int| 0 <= i < self.texts@.len() && (#[trigger] self.texts@[i])@ == k
    }

    /// The position of a measured text.
    pub closed spec fn index_of(&self, k: Seq<char>) -> int {
        choose|i: int| 0 <= i < self.texts@.len() && (#[trigger] self.texts@[i])@ == k
    }

    /// The cached measurement of a text; meaningful when it is contained.
    pub closed spec fn spec_get(&self, k: Seq<char>) -> Option<BoxMetrics> {
        self.metrics@[self.index_of(k)]
    }

    /// An empty cache.
    pub fn new() -> (r: MetricCache)
        ensures
            r.wf(),
            forall|k: Seq<char>| !(#[trigger] r.spec_contains(k)),
    {
        MetricCache { texts: Vec::new(), metrics: Vec::new() }
    }

    /// The cached measurement of `text`: `None` if it was never measured,
    /// otherwise the measurement (which may itself record an absent box).
    pub fn lookup(&self, text: &Vec<char>) -> (r: Option<Option<BoxMetrics>>)
        requires
            self.wf(),
        ensures
            r matches Some(v) ==> self.spec_contains(text@) && v == self.spec_get(text@),
            r is None ==> !self.spec_contains(text@),
    {
        let n = self.texts.len();
        let mut i: usize = 0;
        while i < n
            invariant
                self.wf(),
                n == self.texts@.len(),
                i <= n,
                forall|k: int| 0 <= k < i ==> (#[trigger] self.texts@[k])@ != text@,
            decreases n - i,
        {
            if chars_eq(&self.texts[i], text) {
                proof {
                    assert(self.spec_contains(text@));
                    let j = self.index_of(text@);
                    assert(0 <= j < self.texts@.len() && self.texts@[j]@ == text@);
                    assert(j == i as int);
                }
                return Some(self.metrics[i]);
            }
            i = i + 1;
        }
        proof {
            if self.spec_contains(text@) {
                let j = choose|j: int|
                    0 <= j < self.texts@.len() && (#[trigger] self.texts@[j])@ == text@;
                assert(self.texts@[j]@ != text@);
            }
        }
        None
    }

    /// Records the measurement of a text not measured before. Every
    /// earlier entry keeps its measurement.
    pub fn insert(&mut self, text: Vec<char>, m: Option<BoxMetrics>)
        requires
            old(self).wf(),
            !old(self).spec_contains(text@),
        ensures
            final(self).wf(),
            final(self).spec_contains(text@),
            final(self).spec_get(text@) == m,
            forall|k: Seq<char>|
                #[trigger] old(self).spec_contains(k) ==> final(self).spec_contains(k)
                    && final(self).spec_get(k) == old(self).spec_get(k),
            forall|k: Seq<char>|
                #[trigger] final(self).spec_contains(k) ==> k == text@
                    || old(self).spec_contains(k),
    {
        let ghost olds = *self;
        let ghost n = self.texts@.len() as int;
        proof {
            assert forall|i: int| 0 <= i < n implies (#[trigger] olds.texts@[i])@ != text@ by {
                if olds.texts@[i]@ == text@ {
                    assert(olds.spec_contains(text@));
                }
            }
        }
        self.texts.push(text);
        self.metrics.push(m);
        proof {
            assert(self.texts@.len() == n + 1);
            assert forall|i: int, j: int| 0 <= i < j < self.texts@.len() implies (
            #[trigger] self.texts@[i])@ != (#[trigger] self.texts@[j])@ by {
                if j < n {
                    assert(self.texts@[i] == olds.texts@[i]);
                    assert(self.texts@[j] == olds.texts@[j]);
                } else {
                    assert(self.texts@[i] == olds.texts@[i]);
                    assert(self.texts@[j]@ == text@);
                }
            }
            assert(self.texts@[n]@ == text@);
            assert(self.spec_contains(text@));
            let j = self.index_of(text@);
            assert(0 <= j < self.texts@.len() && self.texts@[j]@ == text@);
            assert(j == n);
            assert(self.spec_get(text@) == m);
            assert forall|k: Seq<char>| #[trigger] olds.spec_contains(k) implies self.spec_contains(
                k,
            ) && self.spec_get(k) == olds.spec_get(k) by {
                let i0 = olds.index_of(k);
                assert(0 <= i0 < olds.texts@.len() && olds.texts@[i0]@ == k);
                assert(self.texts@[i0] == olds.texts@[i0]);
                assert(self.spec_contains(k));
                let j0 = self.index_of(k);
                assert(0 <= j0 < self.texts@.len() && self.texts@[j0]@ == k);
                if j0 == n {
                    assert(k == text@);
                    assert(olds.spec_contains(text@));
                }
                assert(j0 < n);
                assert(self.texts@[j0] == olds.texts@[j0]);
                assert(j0 == i0);
                assert(self.metrics@[j0] == olds.metrics@[i0]);
            }
            assert forall|k: Seq<char>| #[trigger] self.spec_contains(k) implies k == text@
                || olds.spec_contains(k) by {
                let j0 = self.index_of(k);
                assert(0 <= j0 < self.texts@.len() && self.texts@[j0]@ == k);
                if j0 < n {
                    assert(self.texts@[j0] == olds.texts@[j0]);
                    assert(olds.spec_contains(k));
                }
            }
        }
    }
}

} // verus!
