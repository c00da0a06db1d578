//! The top-down arrangement pass: a measured tree plus an assigned
//! rectangle becomes a tree of absolutely positioned boxes, and the
//! flattener turns that tree into a pre-order list of paintable
//! rectangles.
//!
//! Leftover primary-axis space (the assigned extent minus the children's
//! summed absolute sizes) is divided among proportional children by
//! truncating integer division of `weight * leftover / total_weight`; a
//! negative leftover is clamped to zero, so overfull containers give
//! proportional children no space while absolute children keep their
//! declared sizes.

use vstd::prelude::*;

use vstd::arithmetic::div_mod::{
    lemma_div_is_ordered, lemma_div_multiples_vanish, lemma_div_pos_is_pos,
    lemma_fundamental_div_mod, lemma_mod_pos_bound,
};
use vstd::arithmetic::mul::lemma_mul_inequality;

use crate::layout::{ErrorModel, LayoutDirection, LayoutError};
use crate::markup::MAX_LENGTH_VALUE;
use crate::renderer::{lemma_rects_view_add, rects_view, ArgbColour, Rect, RectModel};
use crate::measurer::{
    bounded_measured, bounded_measured_seq, count_measured, count_measured_seq, dp_component,
    primary_of, secondary_of, star_component, sum_primary_dp, sum_star_weights, MeasuredElement,
    MeasuredLength, MeasuredLengthModel, MeasuredModel, MAX_CONTENT,
};

verus! {

/// The largest extent (width or height) the arranger accepts for a
/// rectangle it is asked to fill; viewports must stay under it.
pub const MAX_EXTENT: u64 = 1099511627776;

/// How far one level of arrangement can move a child's origin past its
/// parent's: the children's absolute sizes plus the leftover they share.
pub const LEVEL_SPAN: u64 = MAX_CONTENT + MAX_EXTENT;

/// The largest coordinate budget a call may carry; origins stay below it.
pub const COORD_LIMIT: u64 = 4611686018427387904;

/// An arranged node: an absolute rectangle (relative to the layout root)
/// and the arranged children, in document order.
#[derive(Debug, PartialEq)]
pub struct ArrangedElement {
    pub number: i32,
    pub x: u64,
    pub y: u64,
    pub width: u64,
    pub height: u64,
    pub children: Vec<ArrangedElement>,
}

/// The mathematical shape of an [`ArrangedElement`].
pub ghost struct ArrangedModel {
    pub number: int,
    pub x: int,
    pub y: int,
    pub width: int,
    pub height: int,
    pub children: Seq<ArrangedModel>,
}

/// The model of an arranged node, together with all its children.
pub open spec fn arranged_view(e: ArrangedElement) -> ArrangedModel
    decreases e, 1int, 0int,
{
    ArrangedModel {
        number: e.number as int,
        x: e.x as int,
        y: e.y as int,
        width: e.width as int,
        height: e.height as int,
        children: arranged_children_view(e.children@, e.children@.len() as int),
    }
}

/// The models of the first `i` elements of `s`.
pub open spec fn arranged_children_view(s: Seq<ArrangedElement>, i: int) -> Seq<ArrangedModel>
    decreases s, 0int, i,
{
    if i <= 0 || i > s.len() {
        Seq::empty()
    } else {
        arranged_children_view(s, i - 1).push(arranged_view(s[i - 1]))
    }
}

impl View for ArrangedElement {
    type V = ArrangedModel;

    open spec fn view(&self) -> ArrangedModel {
        arranged_view(*self)
    }
}

/// The number of nodes in the tree rooted at `a`.
pub open spec fn count_arranged(a: ArrangedModel) -> nat
    decreases a, 1int, 0int,
{
    1 + count_arranged_seq(a.children, a.children.len() as int)
}

/// The number of nodes in the trees rooted at the first `i` elements of `s`.
pub open spec fn count_arranged_seq(s: Seq<ArrangedModel>, i: int) -> nat
    decreases s, 0int, i,
{
    if i <= 0 || i > s.len() {
        0
    } else {
        count_arranged_seq(s, i - 1) + count_arranged(s[i - 1])
    }
}

/// The identity of the first of the first `i` children whose primary
/// measure is `fill`, if any: that is a configuration error.
pub open spec fn first_primary_fill(
    s: Seq<MeasuredModel>,
    direction: LayoutDirection,
    i: int,
) -> Option<int>
    decreases i,
{
    if i <= 0 || i > s.len() {
        None
    } else {
        match first_primary_fill(s, direction, i - 1) {
            Some(number) => Some(number),
            None => if primary_of(s[i - 1], direction) is Fill {
                Some(s[i - 1].number)
            } else {
                None
            },
        }
    }
}

/// The concrete primary-axis extent a child receives: its absolute size
/// as is, or its share `weight * leftover / total_weight` of the leftover.
pub open spec fn extent_of(
    c: MeasuredModel,
    direction: LayoutDirection,
    leftover: int,
    star_weight: int,
) -> int {
    match primary_of(c, direction) {
        MeasuredLengthModel::Dp(v) => v,
        MeasuredLengthModel::Star(k) => if star_weight > 0 {
            (k * leftover) / star_weight
        } else {
            0
        },
        MeasuredLengthModel::Fill => 0,
    }
}

/// The concrete secondary-axis extent a child receives: its absolute
/// size as is, or, for `fill`, the parent's secondary extent.
pub open spec fn secondary_extent_of(
    c: MeasuredModel,
    direction: LayoutDirection,
    width: int,
    height: int,
) -> int {
    match secondary_of(c, direction) {
        MeasuredLengthModel::Dp(v) => v,
        MeasuredLengthModel::Fill => match direction {
            LayoutDirection::Row => width,
            LayoutDirection::Column => height,
        },
        MeasuredLengthModel::Star(_) => 0,
    }
}

/// The summed primary extents of the first `i` children: how far the
/// running offset has advanced before child `i`.
pub open spec fn prefix_extent(
    s: Seq<MeasuredModel>,
    direction: LayoutDirection,
    leftover: int,
    star_weight: int,
    i: int,
) -> int
    decreases i,
{
    if i <= 0 || i > s.len() {
        0
    } else {
        prefix_extent(s, direction, leftover, star_weight, i - 1) + extent_of(
            s[i - 1],
            direction,
            leftover,
            star_weight,
        )
    }
}

/// The leftover primary-axis space of a node assigned `total`: what the
/// children's absolute sizes leave, clamped to zero when they overfill.
pub open spec fn leftover_of(s: Seq<MeasuredModel>, direction: LayoutDirection, total: int) -> int {
    let content = sum_primary_dp(s, direction, s.len() as int);
    if total >= content {
        total - content
    } else {
        0
    }
}

/// The arrangement of a measured node assigned the rectangle
/// `(x, y, width, height)`: the node takes the rectangle as is; its
/// children split the primary extent in document order, each fixed at the
/// parent's cross-axis origin. A child whose primary measure is `fill`,
/// or whose secondary measure is proportional, is a configuration error;
/// the first one found wins, `fill`-on-primary errors before any child is
/// entered.
pub open spec fn spec_arrange(m: MeasuredModel, x: int, y: int, width: int, height: int) -> Result<
    ArrangedModel,
    ErrorModel,
>
    decreases m, 1int, 0int,
{
    let n = m.children.len() as int;
    let total = match m.direction {
        LayoutDirection::Row => height,
        LayoutDirection::Column => width,
    };
    match first_primary_fill(m.children, m.direction, n) {
        Some(number) => Err(ErrorModel::FillOnPrimary { number }),
        None => {
            let leftover = leftover_of(m.children, m.direction, total);
            let star_weight = sum_star_weights(m.children, m.direction, n);
            match spec_arrange_children(m.children, m.direction, x, y, width, height, leftover, star_weight, n) {
                Err(er) => Err(er),
                Ok(children) => Ok(
                    ArrangedModel { number: m.number, x, y, width, height, children },
                ),
            }
        },
    }
}

/// The arrangement of the first `i` children, in document order; the
/// first error wins.
pub open spec fn spec_arrange_children(
    s: Seq<MeasuredModel>,
    direction: LayoutDirection,
    x: int,
    y: int,
    width: int,
    height: int,
    leftover: int,
    star_weight: int,
    i: int,
) -> Result<Seq<ArrangedModel>, ErrorModel>
    decreases s, 0int, i,
{
    if i <= 0 || i > s.len() {
        Ok(Seq::empty())
    } else {
        match spec_arrange_children(s, direction, x, y, width, height, leftover, star_weight, i - 1) {
            Err(er) => Err(er),
            Ok(done) => {
                let c = s[i - 1];
                if secondary_of(c, direction) is Star {
                    Err(ErrorModel::StarOnSecondary { number: c.number })
                } else {
                    let extent = extent_of(c, direction, leftover, star_weight);
                    let secondary = secondary_extent_of(c, direction, width, height);
                    let advance = prefix_extent(s, direction, leftover, star_weight, i - 1);
                    let child_rect = match direction {
                        LayoutDirection::Row => (x, y + advance, secondary, extent),
                        LayoutDirection::Column => (x + advance, y, extent, secondary),
                    };
                    match spec_arrange(c, child_rect.0, child_rect.1, child_rect.2, child_rect.3) {
                        Err(er) => Err(er),
                        Ok(a) => Ok(done.push(a)),
                    }
                }
            },
        }
    }
}

/// Dividing two non-negative parts separately never exceeds dividing
/// their sum.
proof fn lemma_div_superadd(a: int, b: int, d: int)
    requires
        0 <= a,
        0 <= b,
        0 < d,
    ensures
        a / d + b / d <= (a + b) / d,
{
    lemma_fundamental_div_mod(a, d);
    lemma_fundamental_div_mod(b, d);
    lemma_mod_pos_bound(a, d);
    lemma_mod_pos_bound(b, d);
    assert(d * (a / d) + d * (b / d) == d * (a / d + b / d)) by (nonlinear_arith);
    lemma_div_multiples_vanish(a / d + b / d, d);
    lemma_div_is_ordered(d * (a / d + b / d), a + b, d);
}

/// A proportional share of the leftover never exceeds the leftover.
proof fn lemma_star_share_le(k: int, leftover: int, w: int)
    requires
        0 <= k <= w,
        0 < w,
        0 <= leftover,
    ensures
        0 <= (k * leftover) / w <= leftover,
{
    assert(0 <= k * leftover) by (nonlinear_arith)
        requires 0 <= k, 0 <= leftover;
    lemma_div_pos_is_pos(k * leftover, w);
    lemma_mul_inequality(k, w, leftover);
    lemma_div_is_ordered(k * leftover, w * leftover, w);
    lemma_div_multiples_vanish(leftover, w);
}

/// The running offset stays within the children's absolute sizes plus
/// the leftover: proportional shares cannot together exceed the leftover.
proof fn lemma_prefix_extent_strong(
    s: Seq<MeasuredModel>,
    direction: LayoutDirection,
    leftover: int,
    star_weight: int,
    i: int,
)
    requires
        0 <= i <= s.len(),
        0 <= leftover,
        star_weight == sum_star_weights(s, direction, s.len() as int),
        forall|k: int| 0 <= k < s.len() ==> dp_component(primary_of(#[trigger] s[k], direction))
            >= 0 && star_component(primary_of(s[k], direction)) >= 0,
    ensures
        0 <= prefix_extent(s, direction, leftover, star_weight, i),
        star_weight > 0 ==> prefix_extent(s, direction, leftover, star_weight, i) <= sum_primary_dp(
            s,
            direction,
            i,
        ) + (sum_star_weights(s, direction, i) * leftover) / star_weight,
        star_weight == 0 ==> prefix_extent(s, direction, leftover, star_weight, i)
            == sum_primary_dp(s, direction, i),
        star_weight >= 0,
    decreases i,
{
    crate::measurer::lemma_partial_sums_le(s, direction, 0, s.len() as int);
    if i > 0 {
        lemma_prefix_extent_strong(s, direction, leftover, star_weight, i - 1);
        let c = s[i - 1];
        match primary_of(c, direction) {
            MeasuredLengthModel::Dp(_) => {},
            MeasuredLengthModel::Star(k) => {
                crate::measurer::lemma_partial_sums_le(s, direction, 0, i - 1);
                crate::measurer::lemma_partial_sums_le(s, direction, i, s.len() as int);
                assert(0 <= sum_star_weights(s, direction, i - 1));
                assert(k <= star_weight);
                if star_weight > 0 {
                    lemma_star_share_le(k, leftover, star_weight);
                    assert(0 <= sum_star_weights(s, direction, i - 1) * leftover)
                        by (nonlinear_arith)
                        requires sum_star_weights(s, direction, i - 1) >= 0, leftover >= 0,
                    ;
                    assert(0 <= k * leftover) by (nonlinear_arith)
                        requires 0 <= k, 0 <= leftover;
                    lemma_div_superadd(
                        sum_star_weights(s, direction, i - 1) * leftover,
                        k * leftover,
                        star_weight,
                    );
                    assert(sum_star_weights(s, direction, i - 1) * leftover + k * leftover
                        == sum_star_weights(s, direction, i) * leftover) by (nonlinear_arith)
                        requires sum_star_weights(s, direction, i) == sum_star_weights(
                            s,
                            direction,
                            i - 1,
                        ) + k,
                    ;
                } else {
                    assert(k <= 0);
                }
            },
            MeasuredLengthModel::Fill => {},
        }
    }
}

/// The running offset after any child prefix stays within the children's
/// summed absolute sizes plus the leftover.
proof fn lemma_prefix_extent_bounds(
    s: Seq<MeasuredModel>,
    direction: LayoutDirection,
    leftover: int,
    star_weight: int,
    i: int,
)
    requires
        0 <= i <= s.len(),
        0 <= leftover,
        star_weight == sum_star_weights(s, direction, s.len() as int),
        forall|k: int| 0 <= k < s.len() ==> dp_component(primary_of(#[trigger] s[k], direction))
            >= 0 && star_component(primary_of(s[k], direction)) >= 0,
    ensures
        0 <= prefix_extent(s, direction, leftover, star_weight, i) <= sum_primary_dp(
            s,
            direction,
            i,
        ) + leftover,
{
    lemma_prefix_extent_strong(s, direction, leftover, star_weight, i);
    if star_weight > 0 {
        crate::measurer::lemma_partial_sums_le(s, direction, 0, i);
        crate::measurer::lemma_partial_sums_le(s, direction, i, s.len() as int);
        lemma_star_share_le(sum_star_weights(s, direction, i), leftover, star_weight);
    }
}

/// A found `fill`-on-primary error stays the same over longer prefixes.
proof fn lemma_first_fill_persists(s: Seq<MeasuredModel>, direction: LayoutDirection, i: int, j: int)
    requires
        0 <= i <= j <= s.len(),
        first_primary_fill(s, direction, i) is Some,
    ensures
        first_primary_fill(s, direction, j) == first_primary_fill(s, direction, i),
    decreases j - i,
{
    if i < j {
        lemma_first_fill_persists(s, direction, i, j - 1);
    }
}

/// When no `fill`-on-primary error is found, no child of the prefix has
/// a `fill` primary measure.
proof fn lemma_first_fill_none(s: Seq<MeasuredModel>, direction: LayoutDirection, i: int)
    requires
        0 <= i <= s.len(),
        first_primary_fill(s, direction, i) is None,
    ensures
        forall|j: int| 0 <= j < i ==> !(primary_of(#[trigger] s[j], direction) is Fill),
    decreases i,
{
    if i > 0 {
        lemma_first_fill_none(s, direction, i - 1);
    }
}

/// A failed arrangement of a child prefix fails every longer prefix the
/// same way.
proof fn lemma_arrange_children_err_persists(
    s: Seq<MeasuredModel>,
    direction: LayoutDirection,
    x: int,
    y: int,
    width: int,
    height: int,
    leftover: int,
    star_weight: int,
    i: int,
    j: int,
)
    requires
        0 <= i <= j <= s.len(),
        spec_arrange_children(s, direction, x, y, width, height, leftover, star_weight, i) is Err,
    ensures
        spec_arrange_children(s, direction, x, y, width, height, leftover, star_weight, j)
            == spec_arrange_children(s, direction, x, y, width, height, leftover, star_weight, i),
    decreases j - i,
{
    if i < j {
        lemma_arrange_children_err_persists(
            s,
            direction,
            x,
            y,
            width,
            height,
            leftover,
            star_weight,
            i,
            j - 1,
        );
    }
}

/// The model of a vector of arranged elements indexes element-wise.
pub proof fn lemma_arranged_children_view_index(s: Seq<ArrangedElement>, i: int)
    requires
        0 <= i <= s.len(),
    ensures
        arranged_children_view(s, i).len() == i,
        forall|j: int| 0 <= j < i ==> arranged_children_view(s, i)[j] == arranged_view(s[j]),
    decreases i,
{
    if i > 0 {
        lemma_arranged_children_view_index(s, i - 1);
    }
}

/// The model of a vector of arranged elements reads only its first `i`
/// elements.
proof fn lemma_arranged_children_view_agree(s1: Seq<ArrangedElement>, s2: Seq<ArrangedElement>, i: int)
    requires
        i <= s1.len(),
        i <= s2.len(),
        forall|j: int| 0 <= j < i ==> s1[j] == s2[j],
    ensures
        arranged_children_view(s1, i) == arranged_children_view(s2, i),
    decreases i,
{
    if i > 0 {
        lemma_arranged_children_view_agree(s1, s2, i - 1);
    }
}

/// Each element of a bounded prefix is itself bounded.
pub proof fn lemma_bounded_seq_index(s: Seq<MeasuredModel>, i: int, j: int)
    requires
        0 <= j < i <= s.len(),
        bounded_measured_seq(s, i),
    ensures
        bounded_measured(s[j]),
    decreases i,
{
    if j < i - 1 {
        lemma_bounded_seq_index(s, i - 1, j);
    }
}

/// Prefix node counts of measured trees grow with the prefix.
pub proof fn lemma_count_measured_seq_le(s: Seq<MeasuredModel>, i: int, j: int)
    requires
        0 <= i <= j <= s.len(),
    ensures
        count_measured_seq(s, i) <= count_measured_seq(s, j),
    decreases j - i,
{
    if i < j {
        lemma_count_measured_seq_le(s, i, j - 1);
    }
}

/// Each subtree of a measured child is smaller than the whole tree.
pub proof fn lemma_count_measured_child_lt(m: MeasuredModel, j: int)
    requires
        0 <= j < m.children.len(),
    ensures
        count_measured(m.children[j]) < count_measured(m),
{
    let s = m.children;
    lemma_count_measured_seq_le(s, j + 1, s.len() as int);
    assert(count_measured_seq(s, j + 1) == count_measured_seq(s, j) + count_measured(s[j]));
}

/// Running totals over children's primary measures: the summed absolute
/// `dp` sizes and the summed proportional weights.
pub struct CombinedMeasuredLength {
    pub dp: u64,
    pub star: u64,
}

impl CombinedMeasuredLength {
    /// The empty total.
    pub fn zero() -> (r: CombinedMeasuredLength)
        ensures
            r.dp == 0,
            r.star == 0,
    {
        CombinedMeasuredLength { dp: 0, star: 0 }
    }

    /// Adds one primary measure to the total. A `fill` length never
    /// belongs on a primary axis and is refused here.
    pub fn combine(&self, len: &MeasuredLength) -> (r: CombinedMeasuredLength)
        requires
            !(len@ is Fill),
            self.dp + dp_component(len@) <= u64::MAX,
            self.star + star_component(len@) <= u64::MAX,
        ensures
            r.dp == self.dp + dp_component(len@),
            r.star == self.star + star_component(len@),
    {
        match len {
            MeasuredLength::Dp(dp) => CombinedMeasuredLength { dp: self.dp + dp, star: self.star },
            MeasuredLength::Star(star) => CombinedMeasuredLength {
                dp: self.dp,
                star: self.star + star,
            },
            MeasuredLength::Fill => vstd::pervasive::unreached(),
        }
    }

    /// Adds two totals component-wise.
    pub fn add(len_a: CombinedMeasuredLength, len_b: CombinedMeasuredLength) -> (r:
        CombinedMeasuredLength)
        requires
            len_a.dp + len_b.dp <= u64::MAX,
            len_a.star + len_b.star <= u64::MAX,
        ensures
            r.dp == len_a.dp + len_b.dp,
            r.star == len_a.star + len_b.star,
    {
        CombinedMeasuredLength { dp: len_a.dp + len_b.dp, star: len_a.star + len_b.star }
    }
}

/// Maps an arrangement result to its mathematical shape.
pub open spec fn arrange_result_view(r: Result<ArrangedElement, LayoutError>) -> Result<
    ArrangedModel,
    ErrorModel,
> {
    match r {
        Ok(a) => Ok(arranged_view(a)),
        Err(e) => Err(e@),
    }
}

/// The fixed fill palette, indexed by the node identity modulo its size;
/// a negative identity falls back to the first entry.
pub open spec fn spec_palette_colour(number: int) -> ArgbColour {
    let i = if number >= 0 {
        number % 7
    } else {
        0
    };
    if i == 0 {
        ArgbColour { a: 255, r: 0xF2, g: 0xDC, b: 0x5D }
    } else if i == 1 {
        ArgbColour { a: 255, r: 0xF2, g: 0xA3, b: 0x59 }
    } else if i == 2 {
        ArgbColour { a: 255, r: 0xDB, g: 0x90, b: 0x65 }
    } else if i == 3 {
        ArgbColour { a: 255, r: 0xA4, g: 0x03, b: 0x1F }
    } else if i == 4 {
        ArgbColour { a: 255, r: 0x24, g: 0x0B, b: 0x36 }
    } else if i == 5 {
        ArgbColour { a: 255, r: 0x71, g: 0xA2, b: 0xB6 }
    } else {
        ArgbColour { a: 255, r: 0xC4, g: 0xF1, b: 0xBE }
    }
}

/// The paintable rectangle of one arranged node: its geometry, a black
/// stroke, and the palette fill picked by its identity.
pub open spec fn rect_model_of(a: ArrangedModel) -> RectModel {
    RectModel {
        x: a.x,
        y: a.y,
        width: a.width,
        height: a.height,
        stroke_colour: ArgbColour { a: 255, r: 0, g: 0, b: 0 },
        fill_colour: spec_palette_colour(a.number),
    }
}

/// The pre-order flattening of an arranged tree: the node's rectangle,
/// then each child's flattening in document order.
pub open spec fn spec_flatten(a: ArrangedModel) -> Seq<RectModel>
    decreases a, 1int, 0int,
{
    seq![rect_model_of(a)] + spec_flatten_seq(a.children, a.children.len() as int)
}

/// The concatenated flattenings of the first `i` elements of `s`.
pub open spec fn spec_flatten_seq(s: Seq<ArrangedModel>, i: int) -> Seq<RectModel>
    decreases s, 0int, i,
{
    if i <= 0 || i > s.len() {
        Seq::empty()
    } else {
        spec_flatten_seq(s, i - 1) + spec_flatten(s[i - 1])
    }
}

impl ArrangedElement {
    /// The node's own paintable rectangle.
    fn to_rect(&self) -> (r: Rect)
        ensures
            r@ == rect_model_of(self@),
    {
        let colours = vec![
            ArgbColour { a: 255, r: 0xF2, g: 0xDC, b: 0x5D },
            ArgbColour { a: 255, r: 0xF2, g: 0xA3, b: 0x59 },
            ArgbColour { a: 255, r: 0xDB, g: 0x90, b: 0x65 },
            ArgbColour { a: 255, r: 0xA4, g: 0x03, b: 0x1F },
            ArgbColour { a: 255, r: 0x24, g: 0x0B, b: 0x36 },
            ArgbColour { a: 255, r: 0x71, g: 0xA2, b: 0xB6 },
            ArgbColour { a: 255, r: 0xC4, g: 0xF1, b: 0xBE },
        ];
        let index: usize = if self.number >= 0 {
            (self.number as usize) % colours.len()
        } else {
            0
        };
        Rect {
            x: self.x,
            y: self.y,
            width: self.width,
            height: self.height,
            stroke_colour: ArgbColour { a: 255, r: 0, g: 0, b: 0 },
            fill_colour: colours[index],
        }
    }

    /// The pre-order flattening of the arranged tree: this node's
    /// rectangle first, then each child's rectangles in document order.
    pub fn flatten(&self) -> (r: Vec<Rect>)
        ensures
            rects_view(r@) == spec_flatten(self@),
        decreases count_arranged(self@),
    {
        let ghost av = self@;
        let ghost cs = av.children;
        let n = self.children.len();
        proof {
            lemma_arranged_children_view_index(self.children@, n as int);
        }
        let first = self.to_rect();
        let mut elements: Vec<Rect> = Vec::new();
        elements.push(first);
        proof {
            assert(elements@ =~= seq![first]);
            assert(elements@.drop_last() =~= Seq::<Rect>::empty());
            assert(rects_view(Seq::<Rect>::empty()) =~= Seq::<RectModel>::empty());
            assert(rects_view(elements@) =~= Seq::<RectModel>::empty().push(first@));
            assert(rects_view(elements@) =~= seq![rect_model_of(av)] + spec_flatten_seq(cs, 0));
        }
        let mut i: usize = 0;
        while i < n
            invariant
                i <= n,
                n == self.children.len(),
                av == self@,
                cs == av.children,
                cs.len() == n,
                forall|k: int| 0 <= k < n ==> cs[k] == #[trigger] self.children@[k]@,
                count_arranged(av) <= count_arranged(self@),
                rects_view(elements@) == seq![rect_model_of(av)] + spec_flatten_seq(cs, i as int),
            decreases n - i,
        {
            proof {
                lemma_count_arranged_child_lt(av, i as int);
            }
            let mut more = self.children[i].flatten();
            let ghost old_elements = elements@;
            let ghost more_view = more@;
            elements.append(&mut more);
            proof {
                lemma_rects_view_add(old_elements, more_view);
                assert(rects_view(elements@) =~= seq![rect_model_of(av)] + spec_flatten_seq(
                    cs,
                    i + 1,
                )) by {
                    assert(spec_flatten_seq(cs, i + 1) =~= spec_flatten_seq(cs, i as int)
                        + spec_flatten(cs[i as int]));
                    assert(seq![rect_model_of(av)] + (spec_flatten_seq(cs, i as int) + spec_flatten(
                        cs[i as int],
                    )) =~= (seq![rect_model_of(av)] + spec_flatten_seq(cs, i as int)) + spec_flatten(
                        cs[i as int],
                    ));
                }
            }
            i = i + 1;
        }
        elements
    }
}

/// A flattened tree holds exactly one rectangle per node of the arranged
/// tree; the flattening is the pre-order walk, so the rectangle at any
/// position belongs to the node visited at that position.
pub proof fn lemma_flatten_count(a: ArrangedModel)
    ensures
        spec_flatten(a).len() == count_arranged(a),
    decreases a, 1int, 0int,
{
    lemma_flatten_seq_count(a.children, a.children.len() as int);
}

/// The flattenings of the first `i` children hold one rectangle per node.
proof fn lemma_flatten_seq_count(s: Seq<ArrangedModel>, i: int)
    ensures
        spec_flatten_seq(s, i).len() == count_arranged_seq(s, i),
    decreases s, 0int, i,
{
    if 0 < i <= s.len() {
        lemma_flatten_seq_count(s, i - 1);
        lemma_flatten_count(s[i - 1]);
    }
}

/// Arrangement neither adds nor drops nodes: a successfully arranged
/// tree has exactly the measured tree's node count.
pub proof fn lemma_arrange_preserves_count(m: MeasuredModel, x: int, y: int, width: int, height: int)
    requires
        spec_arrange(m, x, y, width, height) is Ok,
    ensures
        count_arranged(spec_arrange(m, x, y, width, height)->Ok_0) == count_measured(m),
    decreases m, 1int, 0int,
{
    let n = m.children.len() as int;
    let total = match m.direction {
        LayoutDirection::Row => height,
        LayoutDirection::Column => width,
    };
    let leftover = leftover_of(m.children, m.direction, total);
    let star_weight = sum_star_weights(m.children, m.direction, n);
    lemma_arrange_children_preserves_count(
        m.children,
        m.direction,
        x,
        y,
        width,
        height,
        leftover,
        star_weight,
        n,
    );
}

/// Arranging a child prefix neither adds nor drops nodes.
proof fn lemma_arrange_children_preserves_count(
    s: Seq<MeasuredModel>,
    direction: LayoutDirection,
    x: int,
    y: int,
    width: int,
    height: int,
    leftover: int,
    star_weight: int,
    i: int,
)
    requires
        0 <= i <= s.len(),
        spec_arrange_children(s, direction, x, y, width, height, leftover, star_weight, i) is Ok,
    ensures
        ({
            let done = spec_arrange_children(
                s,
                direction,
                x,
                y,
                width,
                height,
                leftover,
                star_weight,
                i,
            )->Ok_0;
            done.len() == i && count_arranged_seq(done, i) == count_measured_seq(s, i)
        }),
    decreases s, 0int, i,
{
    if i > 0 {
        lemma_arrange_children_preserves_count(
            s,
            direction,
            x,
            y,
            width,
            height,
            leftover,
            star_weight,
            i - 1,
        );
        let prev = spec_arrange_children(
            s,
            direction,
            x,
            y,
            width,
            height,
            leftover,
            star_weight,
            i - 1,
        )->Ok_0;
        let c = s[i - 1];
        let extent = extent_of(c, direction, leftover, star_weight);
        let secondary = secondary_extent_of(c, direction, width, height);
        let advance = prefix_extent(s, direction, leftover, star_weight, i - 1);
        let child_rect = match direction {
            LayoutDirection::Row => (x, y + advance, secondary, extent),
            LayoutDirection::Column => (x + advance, y, extent, secondary),
        };
        lemma_arrange_preserves_count(c, child_rect.0, child_rect.1, child_rect.2, child_rect.3);
        let a = spec_arrange(c, child_rect.0, child_rect.1, child_rect.2, child_rect.3)->Ok_0;
        let done = prev.push(a);
        lemma_count_arranged_seq_agree(prev, done, i - 1);
        assert(done[i - 1] == a);
    }
}

/// The node count of an arranged prefix reads only its first `i`
/// elements.
proof fn lemma_count_arranged_seq_agree(s1: Seq<ArrangedModel>, s2: Seq<ArrangedModel>, i: int)
    requires
        i <= s1.len(),
        i <= s2.len(),
        forall|j: int| 0 <= j < i ==> s1[j] == s2[j],
    ensures
        count_arranged_seq(s1, i) == count_arranged_seq(s2, i),
    decreases i,
{
    if i > 0 {
        lemma_count_arranged_seq_agree(s1, s2, i - 1);
    }
}

/// An only child with a proportional primary measure and a `fill`
/// secondary measure is arranged to exactly its parent's rectangle,
/// whatever its weight: it takes the whole leftover and the whole cross
/// axis.
pub proof fn lemma_single_child_fills(m: MeasuredModel, x: int, y: int, width: int, height: int)
    requires
        m.children.len() == 1,
        primary_of(m.children[0], m.direction) matches MeasuredLengthModel::Star(k) && k >= 1,
        secondary_of(m.children[0], m.direction) is Fill,
        0 <= width,
        0 <= height,
        spec_arrange(m, x, y, width, height) is Ok,
    ensures
        ({
            let a = spec_arrange(m, x, y, width, height)->Ok_0;
            &&& a.children.len() == 1
            &&& a.children[0].x == x
            &&& a.children[0].y == y
            &&& a.children[0].width == width
            &&& a.children[0].height == height
        }),
{
    let s = m.children;
    let c = s[0];
    let total = match m.direction {
        LayoutDirection::Row => height,
        LayoutDirection::Column => width,
    };
    let k = primary_of(c, m.direction)->Star_0;
    assert(sum_primary_dp(s, m.direction, 0) == 0);
    assert(sum_primary_dp(s, m.direction, 1) == 0);
    assert(sum_star_weights(s, m.direction, 0) == 0);
    assert(sum_star_weights(s, m.direction, 1) == k);
    assert(first_primary_fill(s, m.direction, 0) is None);
    assert(first_primary_fill(s, m.direction, 1) is None);
    assert(leftover_of(s, m.direction, total) == total);
    lemma_div_multiples_vanish(total, k);
    assert((k * total) / k == total);
    assert(extent_of(c, m.direction, total, k) == total);
    assert(prefix_extent(s, m.direction, total, k, 0) == 0);
    assert(secondary_extent_of(c, m.direction, width, height) == match m.direction {
        LayoutDirection::Row => width,
        LayoutDirection::Column => height,
    });
    let children_res = spec_arrange_children(s, m.direction, x, y, width, height, total, k, 1);
    assert(spec_arrange_children(s, m.direction, x, y, width, height, total, k, 0)
        == Ok::<Seq<ArrangedModel>, ErrorModel>(Seq::empty()));
    let child_res = spec_arrange(c, x, y, width, height);
    assert(children_res == match child_res {
        Err(er) => Err::<Seq<ArrangedModel>, ErrorModel>(er),
        Ok(a0) => Ok(Seq::empty().push(a0)),
    });
    assert(child_res is Ok);
    assert(child_res->Ok_0.x == x && child_res->Ok_0.y == y && child_res->Ok_0.width == width
        && child_res->Ok_0.height == height);
}

/// A `Row` parent whose three children declare an absolute size of 40, a
/// weight of two and a weight of one splits its height into 40 units,
/// two thirds of the leftover and one third of the leftover, each child
/// spanning the full width; the children sit one below the other.
pub proof fn lemma_row_absolute_proportional_mix(
    m: MeasuredModel,
    x: int,
    y: int,
    width: int,
    height: int,
)
    requires
        m.direction is Row,
        m.children.len() == 3,
        m.children[0].height == MeasuredLengthModel::Dp(40),
        m.children[1].height == MeasuredLengthModel::Star(2),
        m.children[2].height == MeasuredLengthModel::Star(1),
        m.children[0].width is Fill,
        m.children[1].width is Fill,
        m.children[2].width is Fill,
        height >= 40,
        spec_arrange(m, x, y, width, height) is Ok,
    ensures
        ({
            let a = spec_arrange(m, x, y, width, height)->Ok_0;
            &&& a.children.len() == 3
            &&& a.children[0].height == 40
            &&& a.children[1].height == (2 * (height - 40)) / 3
            &&& a.children[2].height == (height - 40) / 3
            &&& a.children[0].width == width
            &&& a.children[1].width == width
            &&& a.children[2].width == width
            &&& a.children[0].y == y
            &&& a.children[1].y == y + 40
            &&& a.children[2].y == y + 40 + (2 * (height - 40)) / 3
        }),
{
    let s = m.children;
    let total = height;
    assert(sum_primary_dp(s, m.direction, 0) == 0);
    assert(sum_primary_dp(s, m.direction, 1) == 40);
    assert(sum_primary_dp(s, m.direction, 2) == 40);
    assert(sum_primary_dp(s, m.direction, 3) == 40);
    assert(sum_star_weights(s, m.direction, 0) == 0);
    assert(sum_star_weights(s, m.direction, 1) == 0);
    assert(sum_star_weights(s, m.direction, 2) == 2);
    assert(sum_star_weights(s, m.direction, 3) == 3);
    assert(first_primary_fill(s, m.direction, 0) is None);
    assert(first_primary_fill(s, m.direction, 1) is None);
    assert(first_primary_fill(s, m.direction, 2) is None);
    assert(first_primary_fill(s, m.direction, 3) is None);
    let leftover = leftover_of(s, m.direction, total);
    assert(leftover == height - 40);
    assert(extent_of(s[0], m.direction, leftover, 3) == 40);
    assert(extent_of(s[1], m.direction, leftover, 3) == (2 * (height - 40)) / 3);
    assert(1 * (height - 40) == height - 40) by (nonlinear_arith);
    assert(extent_of(s[2], m.direction, leftover, 3) == (height - 40) / 3);
    assert(prefix_extent(s, m.direction, leftover, 3, 0) == 0);
    assert(prefix_extent(s, m.direction, leftover, 3, 1) == 40);
    assert(prefix_extent(s, m.direction, leftover, 3, 2) == 40 + (2 * (height - 40)) / 3);
    assert(secondary_extent_of(s[0], m.direction, width, height) == width);
    assert(secondary_extent_of(s[1], m.direction, width, height) == width);
    assert(secondary_extent_of(s[2], m.direction, width, height) == width);
    let r0 = spec_arrange(s[0], x, y, width, 40);
    let r1 = spec_arrange(s[1], x, y + 40, width, (2 * (height - 40)) / 3);
    let r2 = spec_arrange(
        s[2],
        x,
        y + 40 + (2 * (height - 40)) / 3,
        width,
        (height - 40) / 3,
    );
    let c0 = spec_arrange_children(s, m.direction, x, y, width, height, leftover, 3, 0);
    let c1 = spec_arrange_children(s, m.direction, x, y, width, height, leftover, 3, 1);
    let c2 = spec_arrange_children(s, m.direction, x, y, width, height, leftover, 3, 2);
    let c3 = spec_arrange_children(s, m.direction, x, y, width, height, leftover, 3, 3);
    assert(c0 == Ok::<Seq<ArrangedModel>, ErrorModel>(Seq::empty()));
    assert(c1 == match r0 {
        Err(er) => Err::<Seq<ArrangedModel>, ErrorModel>(er),
        Ok(a0) => Ok(Seq::empty().push(a0)),
    });
    assert(r0 is Ok && r1 is Ok && r2 is Ok);
    assert(c3 == Ok::<Seq<ArrangedModel>, ErrorModel>(
        Seq::empty().push(r0->Ok_0).push(r1->Ok_0).push(r2->Ok_0),
    ));
}

/// Each subtree of an arranged child is smaller than the whole tree.
proof fn lemma_count_arranged_child_lt(a: ArrangedModel, j: int)
    requires
        0 <= j < a.children.len(),
    ensures
        count_arranged(a.children[j]) < count_arranged(a),
{
    let s = a.children;
    lemma_count_arranged_seq_le(s, j + 1, s.len() as int);
    assert(count_arranged_seq(s, j + 1) == count_arranged_seq(s, j) + count_arranged(s[j]));
}

/// Prefix node counts of arranged trees grow with the prefix.
proof fn lemma_count_arranged_seq_le(s: Seq<ArrangedModel>, i: int, j: int)
    requires
        0 <= i <= j <= s.len(),
    ensures
        count_arranged_seq(s, i) <= count_arranged_seq(s, j),
    decreases j - i,
{
    if i < j {
        lemma_count_arranged_seq_le(s, i, j - 1);
    }
}

/// Arranges a measured tree into the rectangle `(x, y, width, height)`:
/// the node takes the rectangle as is; children are positioned
/// contiguously along the primary axis in document order, absolute sizes
/// kept as declared, proportional children sharing the leftover space in
/// proportion to their weights (clamped to nothing when the absolute
/// sizes overfill the parent), and `fill` children spanning the parent's
/// secondary extent. Fails exactly on the first child whose measures sit
/// on an axis where they are illegal.
pub fn arrange_layout_tree(
    elem: &MeasuredElement,
    x: u64,
    y: u64,
    width: u64,
    height: u64,
) -> (r: Result<ArrangedElement, LayoutError>)
    requires
        bounded_measured(elem@),
        width <= MAX_EXTENT,
        height <= MAX_EXTENT,
        x + count_measured(elem@) * LEVEL_SPAN <= COORD_LIMIT,
        y + count_measured(elem@) * LEVEL_SPAN <= COORD_LIMIT,
    ensures
        arrange_result_view(r) == spec_arrange(elem@, x as int, y as int, width as int, height as int),
    decreases count_measured(elem@),
{
    let ghost mm = elem@;
    let ghost cs = mm.children;
    let ghost direction = mm.direction;
    let n = elem.children.len();
    proof {
        crate::measurer::lemma_measured_children_view_index(elem.children@, n as int);
        assert(count_measured_seq(cs, n as int) < count_measured(mm));
        assert(count_measured(mm) * LEVEL_SPAN >= 1 * LEVEL_SPAN) by (nonlinear_arith)
            requires count_measured(mm) >= 1;
    }

    let is_row = match elem.layout_direction {
        LayoutDirection::Row => true,
        LayoutDirection::Column => false,
    };
    let total = if is_row {
        height
    } else {
        width
    };

    // First pass: fold the children's primary measures into running
    // totals; a `fill` primary measure is a configuration error.
    let mut combined = CombinedMeasuredLength::zero();
    let mut i: usize = 0;
    while i < n
        invariant
            i <= n,
            n == elem.children.len(),
            mm == elem@,
            cs == mm.children,
            direction == mm.direction,
            cs.len() == n,
            forall|k: int| 0 <= k < n ==> cs[k] == #[trigger] elem.children@[k]@,
            bounded_measured(mm),
            first_primary_fill(cs, direction, i as int) is None,
            combined.dp == sum_primary_dp(cs, direction, i as int),
            combined.star == sum_star_weights(cs, direction, i as int),
        decreases n - i,
    {
        proof {
            assert forall|k: int| 0 <= k < cs.len() implies dp_component(
                primary_of(#[trigger] cs[k], direction),
            ) >= 0 && star_component(primary_of(cs[k], direction)) >= 0 by {
                assert(cs[k] == elem.children@[k]@);
            }
            crate::measurer::lemma_partial_sums_le(cs, direction, i + 1, n as int);
        }
        let len = elem.children[i].primary_measure(&elem.layout_direction);
        match len {
            MeasuredLength::Fill => {
                proof {
                    assert(first_primary_fill(cs, direction, i + 1) == Some(cs[i as int].number));
                    lemma_first_fill_persists(cs, direction, i + 1, n as int);
                }
                return Err(LayoutError::FillOnPrimary { number: elem.children[i].number });
            },
            _ => {
                combined = combined.combine(&len);
            },
        }
        i = i + 1;
    }

    let ghost leftover_spec = leftover_of(cs, direction, total as int);
    let star_weight = combined.star;
    let leftover = if total >= combined.dp {
        total - combined.dp
    } else {
        0
    };
    proof {
        assert(leftover == leftover_spec);
        lemma_first_fill_none(cs, direction, n as int);
    }

    // Second pass: walk the children in document order, advancing a
    // running offset along the primary axis.
    let mut arranged_children: Vec<ArrangedElement> = Vec::new();
    let mut offset: u64 = if is_row {
        y
    } else {
        x
    };
    let ghost start = offset as int;
    let mut j: usize = 0;
    while j < n
        invariant
            j <= n,
            n == elem.children.len(),
            mm == elem@,
            cs == mm.children,
            direction == mm.direction,
            cs.len() == n,
            forall|k: int| 0 <= k < n ==> cs[k] == #[trigger] elem.children@[k]@,
            bounded_measured(mm),
            width <= MAX_EXTENT,
            height <= MAX_EXTENT,
            x + count_measured(mm) * LEVEL_SPAN <= COORD_LIMIT,
            y + count_measured(mm) * LEVEL_SPAN <= COORD_LIMIT,
            is_row == (direction is Row),
            total == if is_row { height } else { width },
            total <= MAX_EXTENT,
            first_primary_fill(cs, direction, n as int) is None,
            star_weight == sum_star_weights(cs, direction, n as int),
            leftover == leftover_of(cs, direction, total as int),
            leftover <= total,
            start == if is_row { y as int } else { x as int },
            offset == start + prefix_extent(cs, direction, leftover as int, star_weight as int, j as int),
            arranged_children@.len() == j,
            spec_arrange_children(
                cs,
                direction,
                x as int,
                y as int,
                width as int,
                height as int,
                leftover as int,
                star_weight as int,
                j as int,
            ) == Ok::<Seq<ArrangedModel>, ErrorModel>(
                arranged_children_view(arranged_children@, j as int),
            ),
        decreases n - j,
    {
        proof {
            assert forall|k: int| 0 <= k < cs.len() implies dp_component(
                primary_of(#[trigger] cs[k], direction),
            ) >= 0 && star_component(primary_of(cs[k], direction)) >= 0 by {
                assert(cs[k] == elem.children@[k]@);
            }
            lemma_bounded_seq_index(cs, n as int, j as int);
            lemma_first_fill_none(cs, direction, n as int);
            lemma_prefix_extent_bounds(
                cs,
                direction,
                leftover as int,
                star_weight as int,
                j as int,
            );
            lemma_prefix_extent_bounds(
                cs,
                direction,
                leftover as int,
                star_weight as int,
                j + 1,
            );
            crate::measurer::lemma_partial_sums_le(cs, direction, j + 1, n as int);
            lemma_count_measured_child_lt(mm, j as int);
            lemma_count_measured_seq_le(cs, j + 1, n as int);
            assert((count_measured(mm) - 1) * LEVEL_SPAN + LEVEL_SPAN == count_measured(mm)
                * LEVEL_SPAN) by (nonlinear_arith);
            assert(count_measured(cs[j as int]) * LEVEL_SPAN <= (count_measured(mm) - 1)
                * LEVEL_SPAN) by (nonlinear_arith)
                requires count_measured(cs[j as int]) <= count_measured(mm) - 1;
        }
        let child = &elem.children[j];
        let secondary = match child.secondary_measure(&elem.layout_direction) {
            MeasuredLength::Dp(v) => v,
            MeasuredLength::Fill => if is_row {
                width
            } else {
                height
            },
            MeasuredLength::Star(_) => {
                proof {
                    lemma_arrange_children_err_persists(
                        cs,
                        direction,
                        x as int,
                        y as int,
                        width as int,
                        height as int,
                        leftover as int,
                        star_weight as int,
                        j + 1,
                        n as int,
                    );
                }
                return Err(LayoutError::StarOnSecondary { number: child.number });
            },
        };
        let extent = match child.primary_measure(&elem.layout_direction) {
            MeasuredLength::Dp(v) => v,
            MeasuredLength::Star(k) => {
                if star_weight > 0 {
                    proof {
                        crate::measurer::lemma_partial_sums_le(cs, direction, 0, j as int);
                        assert(k <= star_weight);
                        lemma_star_share_le(k as int, leftover as int, star_weight as int);
                        assert(k * leftover <= MAX_LENGTH_VALUE * MAX_EXTENT) by (nonlinear_arith)
                            requires
                                0 <= k <= MAX_LENGTH_VALUE,
                                0 <= leftover <= MAX_EXTENT,
                        ;
                    }
                    (k * leftover) / star_weight
                } else {
                    0
                }
            },
            MeasuredLength::Fill => vstd::pervasive::unreached(),
        };
        let child_x = if is_row {
            x
        } else {
            offset
        };
        let child_y = if is_row {
            offset
        } else {
            y
        };
        let child_width = if is_row {
            secondary
        } else {
            extent
        };
        let child_height = if is_row {
            extent
        } else {
            secondary
        };
        match arrange_layout_tree(child, child_x, child_y, child_width, child_height) {
            Ok(a) => {
                proof {
                    lemma_arranged_children_view_agree(
                        arranged_children@,
                        arranged_children@.push(a),
                        j as int,
                    );
                    assert(arranged_children@.push(a)[j as int] == a);
                }
                arranged_children.push(a);
            },
            Err(er) => {
                proof {
                    lemma_arrange_children_err_persists(
                        cs,
                        direction,
                        x as int,
                        y as int,
                        width as int,
                        height as int,
                        leftover as int,
                        star_weight as int,
                        j + 1,
                        n as int,
                    );
                }
                return Err(er);
            },
        }
        offset = offset + extent;
        j = j + 1;
    }

    let arranged = ArrangedElement {
        number: elem.number,
        x,
        y,
        width,
        height,
        children: arranged_children,
    };
    proof {
        assert(arranged_view(arranged).children == arranged_children_view(
            arranged.children@,
            arranged.children@.len() as int,
        ));
    }
    Ok(arranged)
}

} // verus!
