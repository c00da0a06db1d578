//! The bottom-up measurement pass: every node's declared lengths are
//! resolved, children before parents, so that `content` sizes become
//! concrete `dp` values.

use vstd::prelude::*;

use crate::layout::{ErrorModel, LayoutDirection, LayoutError};
use crate::markup::{
    count_element_seq, count_elements, spec_direction, spec_primary, spec_secondary, MarkupElement,
    MarkupLength, MAX_LENGTH_VALUE,
};

verus! {

/// The largest node count a single layout call accepts. Together with
/// [`MAX_LENGTH_VALUE`] it keeps every content sum of the pipeline below
/// [`MAX_CONTENT`].
pub const MAX_NODE_COUNT: u64 = 65536;

/// An upper bound on every resolved `dp` value and on every per-node sum
/// of children's `dp` values or proportional weights.
pub const MAX_CONTENT: u64 = MAX_NODE_COUNT * MAX_LENGTH_VALUE;

/// A fully resolved per-axis length: `content` never survives
/// measurement, it is turned into a concrete `Dp` value.
#[derive(Copy, Clone, PartialEq, Eq, Structural, Debug)]
pub enum MeasuredLength {
    Dp(u64),
    Star(u64),
    Fill,
}

/// A measured node: both axes resolved, the layout direction fixed, the
/// identity `number` carried over from the markup node.
#[derive(Debug, PartialEq)]
pub struct MeasuredElement {
    pub number: i32,
    pub width: MeasuredLength,
    pub height: MeasuredLength,
    pub layout_direction: LayoutDirection,
    pub children: Vec<MeasuredElement>,
}

/// The mathematical shape of a [`MeasuredLength`].
pub ghost enum MeasuredLengthModel {
    Dp(int),
    Star(int),
    Fill,
}

/// The mathematical shape of a [`MeasuredElement`].
pub ghost struct MeasuredModel {
    pub number: int,
    pub width: MeasuredLengthModel,
    pub height: MeasuredLengthModel,
    pub direction: LayoutDirection,
    pub children: Seq<MeasuredModel>,
}

impl View for MeasuredLength {
    type V = MeasuredLengthModel;

    open spec fn view(&self) -> MeasuredLengthModel {
        match self {
            MeasuredLength::Dp(v) => MeasuredLengthModel::Dp(*v as int),
            MeasuredLength::Star(v) => MeasuredLengthModel::Star(*v as int),
            MeasuredLength::Fill => MeasuredLengthModel::Fill,
        }
    }
}

/// The model of a measured node, together with all its children.
pub open spec fn measured_view(e: MeasuredElement) -> MeasuredModel
    decreases e, 1int, 0int,
{
    MeasuredModel {
        number: e.number as int,
        width: e.width@,
        height: e.height@,
        direction: e.layout_direction,
        children: measured_children_view(e.children@, e.children@.len() as int),
    }
}

/// The models of the first `i` elements of `s`.
pub open spec fn measured_children_view(s: Seq<MeasuredElement>, i: int) -> Seq<MeasuredModel>
    decreases s, 0int, i,
{
    if i <= 0 || i > s.len() {
        Seq::empty()
    } else {
        measured_children_view(s, i - 1).push(measured_view(s[i - 1]))
    }
}

impl View for MeasuredElement {
    type V = MeasuredModel;

    open spec fn view(&self) -> MeasuredModel {
        measured_view(*self)
    }
}

/// The number of nodes in the tree rooted at `m`.
pub open spec fn count_measured(m: MeasuredModel) -> nat
    decreases m, 1int, 0int,
{
    1 + count_measured_seq(m.children, m.children.len() as int)
}

/// The number of nodes in the trees rooted at the first `i` elements of `s`.
pub open spec fn count_measured_seq(s: Seq<MeasuredModel>, i: int) -> nat
    decreases s, 0int, i,
{
    if i <= 0 || i > s.len() {
        0
    } else {
        count_measured_seq(s, i - 1) + count_measured(s[i - 1])
    }
}

/// The measure a parent laying out along `direction` reads on the primary
/// axis of child `m`: the height under `Row`, the width under `Column`.
pub open spec fn primary_of(m: MeasuredModel, direction: LayoutDirection) -> MeasuredLengthModel {
    match direction {
        LayoutDirection::Row => m.height,
        LayoutDirection::Column => m.width,
    }
}

/// The measure read on the secondary axis of child `m`.
pub open spec fn secondary_of(m: MeasuredModel, direction: LayoutDirection) -> MeasuredLengthModel {
    match direction {
        LayoutDirection::Row => m.width,
        LayoutDirection::Column => m.height,
    }
}

/// The `Dp` value of a length, `0` for every other kind.
pub open spec fn dp_component(l: MeasuredLengthModel) -> int {
    match l {
        MeasuredLengthModel::Dp(v) => v,
        _ => 0,
    }
}

/// The proportional weight of a length, `0` for every other kind.
pub open spec fn star_component(l: MeasuredLengthModel) -> int {
    match l {
        MeasuredLengthModel::Star(v) => v,
        _ => 0,
    }
}

/// The sum of the primary-axis `Dp` values of the first `i` children.
pub open spec fn sum_primary_dp(s: Seq<MeasuredModel>, direction: LayoutDirection, i: int) -> int
    decreases i,
{
    if i <= 0 || i > s.len() {
        0
    } else {
        sum_primary_dp(s, direction, i - 1) + dp_component(primary_of(s[i - 1], direction))
    }
}

/// The sum of the primary-axis proportional weights of the first `i`
/// children.
pub open spec fn sum_star_weights(s: Seq<MeasuredModel>, direction: LayoutDirection, i: int) -> int
    decreases i,
{
    if i <= 0 || i > s.len() {
        0
    } else {
        sum_star_weights(s, direction, i - 1) + star_component(primary_of(s[i - 1], direction))
    }
}

/// The largest secondary-axis `Dp` value among the first `i` children;
/// `0` when there is none.
pub open spec fn max_secondary_dp(s: Seq<MeasuredModel>, direction: LayoutDirection, i: int) -> int
    decreases i,
{
    if i <= 0 || i > s.len() {
        0
    } else {
        let rest = max_secondary_dp(s, direction, i - 1);
        let here = dp_component(secondary_of(s[i - 1], direction));
        if here > rest {
            here
        } else {
            rest
        }
    }
}

/// The resolved primary measure of a node whose children have the models
/// `children`: `content` becomes the children's summed primary `dp`
/// sizes, `fill` is a configuration error here, absence defaults to a
/// weight of one.
pub open spec fn spec_resolve_primary(
    e: MarkupElement,
    direction: LayoutDirection,
    children: Seq<MeasuredModel>,
) -> Result<MeasuredLengthModel, ErrorModel> {
    match spec_primary(e, direction) {
        Err(er) => Err(er),
        Ok(attr) => match attr {
            Some(MarkupLength::Content) => Ok(
                MeasuredLengthModel::Dp(sum_primary_dp(children, direction, children.len() as int)),
            ),
            Some(MarkupLength::Dp(v)) => Ok(MeasuredLengthModel::Dp(v as int)),
            Some(MarkupLength::Star(v)) => Ok(MeasuredLengthModel::Star(v as int)),
            Some(MarkupLength::Fill) => Err(ErrorModel::FillOnPrimary { number: e.number as int }),
            None => Ok(MeasuredLengthModel::Star(1)),
        },
    }
}

/// The resolved secondary measure: `content` becomes the children's
/// largest secondary `dp` size, a proportional weight is a configuration
/// error here, absence defaults to `fill`.
pub open spec fn spec_resolve_secondary(
    e: MarkupElement,
    direction: LayoutDirection,
    children: Seq<MeasuredModel>,
) -> Result<MeasuredLengthModel, ErrorModel> {
    match spec_secondary(e, direction) {
        Err(er) => Err(er),
        Ok(attr) => match attr {
            Some(MarkupLength::Content) => Ok(
                MeasuredLengthModel::Dp(
                    max_secondary_dp(children, direction, children.len() as int),
                ),
            ),
            Some(MarkupLength::Dp(v)) => Ok(MeasuredLengthModel::Dp(v as int)),
            Some(MarkupLength::Star(_)) => Err(
                ErrorModel::StarOnSecondary { number: e.number as int },
            ),
            Some(MarkupLength::Fill) => Ok(MeasuredLengthModel::Fill),
            None => Ok(MeasuredLengthModel::Fill),
        },
    }
}

/// The measurement of a whole markup tree: children first (the first
/// failing child aborts everything), then the node's own direction, then
/// its primary and secondary measures, mapped back onto width and height.
pub open spec fn spec_measure(e: MarkupElement) -> Result<MeasuredModel, ErrorModel>
    decreases e, 1int, 0int,
{
    match spec_measure_children(e.children@, e.children@.len() as int) {
        Err(er) => Err(er),
        Ok(children) => match spec_direction(e) {
            Err(er) => Err(er),
            Ok(direction) => match spec_resolve_primary(e, direction, children) {
                Err(er) => Err(er),
                Ok(primary) => match spec_resolve_secondary(e, direction, children) {
                    Err(er) => Err(er),
                    Ok(secondary) => Ok(
                        MeasuredModel {
                            number: e.number as int,
                            width: match direction {
                                LayoutDirection::Row => secondary,
                                LayoutDirection::Column => primary,
                            },
                            height: match direction {
                                LayoutDirection::Row => primary,
                                LayoutDirection::Column => secondary,
                            },
                            direction,
                            children,
                        },
                    ),
                },
            },
        },
    }
}

/// The measurement of the first `i` elements of `s`, in order; the first
/// error wins.
pub open spec fn spec_measure_children(s: Seq<MarkupElement>, i: int) -> Result<
    Seq<MeasuredModel>,
    ErrorModel,
>
    decreases s, 0int, i,
{
    if i <= 0 || i > s.len() {
        Ok(Seq::empty())
    } else {
        match spec_measure_children(s, i - 1) {
            Err(er) => Err(er),
            Ok(done) => match spec_measure(s[i - 1]) {
                Err(er) => Err(er),
                Ok(m) => Ok(done.push(m)),
            },
        }
    }
}

/// Bounds on one resolved length: `dp` values fit under [`MAX_CONTENT`],
/// weights are positive and fit under [`MAX_LENGTH_VALUE`].
pub open spec fn length_in_bounds(l: MeasuredLengthModel) -> bool {
    match l {
        MeasuredLengthModel::Dp(v) => 0 <= v <= MAX_CONTENT as int,
        MeasuredLengthModel::Star(v) => 1 <= v <= MAX_LENGTH_VALUE as int,
        MeasuredLengthModel::Fill => true,
    }
}

/// Every length and every per-node children sum in the measured tree is
/// within the bounds the arrangement pass relies on.
pub open spec fn bounded_measured(m: MeasuredModel) -> bool
    decreases m, 1int, 0int,
{
    &&& length_in_bounds(m.width)
    &&& length_in_bounds(m.height)
    &&& 0 <= sum_primary_dp(m.children, m.direction, m.children.len() as int) <= MAX_CONTENT as int
    &&& 0 <= sum_star_weights(m.children, m.direction, m.children.len() as int)
        <= MAX_CONTENT as int
    &&& bounded_measured_seq(m.children, m.children.len() as int)
}

/// [`bounded_measured`] for the first `i` elements of `s`.
pub open spec fn bounded_measured_seq(s: Seq<MeasuredModel>, i: int) -> bool
    decreases s, 0int, i,
{
    if i <= 0 || i > s.len() {
        true
    } else {
        bounded_measured_seq(s, i - 1) && bounded_measured(s[i - 1])
    }
}

/// Bounds on one measured length in terms of the node count `budget` of
/// the subtree it was resolved from.
pub open spec fn value_bound(l: MeasuredLengthModel, budget: int) -> bool {
    match l {
        MeasuredLengthModel::Dp(v) => 0 <= v <= budget * MAX_LENGTH_VALUE as int,
        MeasuredLengthModel::Star(v) => 1 <= v <= MAX_LENGTH_VALUE as int,
        MeasuredLengthModel::Fill => true,
    }
}

/// What holds of a successfully measured node, in terms of its markup
/// node `e`.
pub open spec fn measure_ok_bounds(e: MarkupElement, m: MeasuredModel) -> bool {
    &&& m.number == e.number as int
    &&& count_measured(m) == count_elements(e)
    &&& value_bound(m.width, count_elements(e) as int)
    &&& value_bound(m.height, count_elements(e) as int)
    &&& (count_elements(e) <= MAX_NODE_COUNT ==> bounded_measured(m))
}

/// What holds of the first `i` children of `s` once all of them measured
/// successfully to `cs`.
pub open spec fn children_ok_bounds(s: Seq<MarkupElement>, i: int, cs: Seq<MeasuredModel>) -> bool {
    &&& cs.len() == i
    &&& (forall|j: int| 0 <= j < i ==> spec_measure(s[j]) == Ok::<MeasuredModel, ErrorModel>(
        #[trigger] cs[j],
    ))
    &&& (forall|j: int|
        0 <= j < i ==> value_bound(#[trigger] cs[j].width, count_elements(s[j]) as int))
    &&& (forall|j: int|
        0 <= j < i ==> value_bound(#[trigger] cs[j].height, count_elements(s[j]) as int))
    &&& count_measured_seq(cs, i) == count_element_seq(s, i)
    &&& 0 <= sum_primary_dp(cs, LayoutDirection::Row, i) <= count_element_seq(s, i)
        * MAX_LENGTH_VALUE as int
    &&& 0 <= sum_primary_dp(cs, LayoutDirection::Column, i) <= count_element_seq(s, i)
        * MAX_LENGTH_VALUE as int
    &&& 0 <= sum_star_weights(cs, LayoutDirection::Row, i) <= count_element_seq(s, i)
        * MAX_LENGTH_VALUE as int
    &&& 0 <= sum_star_weights(cs, LayoutDirection::Column, i) <= count_element_seq(s, i)
        * MAX_LENGTH_VALUE as int
    &&& 0 <= max_secondary_dp(cs, LayoutDirection::Row, i) <= count_element_seq(s, i)
        * MAX_LENGTH_VALUE as int
    &&& 0 <= max_secondary_dp(cs, LayoutDirection::Column, i) <= count_element_seq(s, i)
        * MAX_LENGTH_VALUE as int
    &&& (count_element_seq(s, i) <= MAX_NODE_COUNT ==> bounded_measured_seq(cs, i))
}

/// The prefix sums, maxima and counts over measured children read only
/// the first `i` elements: two sequences that agree there agree on them.
pub proof fn lemma_prefix_fns_agree(
    s1: Seq<MeasuredModel>,
    s2: Seq<MeasuredModel>,
    direction: LayoutDirection,
    i: int,
)
    requires
        i <= s1.len(),
        i <= s2.len(),
        forall|j: int| 0 <= j < i ==> s1[j] == s2[j],
    ensures
        sum_primary_dp(s1, direction, i) == sum_primary_dp(s2, direction, i),
        sum_star_weights(s1, direction, i) == sum_star_weights(s2, direction, i),
        max_secondary_dp(s1, direction, i) == max_secondary_dp(s2, direction, i),
        count_measured_seq(s1, i) == count_measured_seq(s2, i),
        bounded_measured_seq(s1, i) == bounded_measured_seq(s2, i),
    decreases i,
{
    if i > 0 {
        lemma_prefix_fns_agree(s1, s2, direction, i - 1);
    }
}

/// Likewise for the model view of a vector of measured elements.
pub proof fn lemma_measured_children_view_agree(
    s1: Seq<MeasuredElement>,
    s2: Seq<MeasuredElement>,
    i: int,
)
    requires
        i <= s1.len(),
        i <= s2.len(),
        forall|j: int| 0 <= j < i ==> s1[j] == s2[j],
    ensures
        measured_children_view(s1, i) == measured_children_view(s2, i),
    decreases i,
{
    if i > 0 {
        lemma_measured_children_view_agree(s1, s2, i - 1);
    }
}

/// A failed measurement of a child prefix fails every longer prefix the
/// same way.
pub proof fn lemma_children_err_persists(s: Seq<MarkupElement>, i: int, j: int)
    requires
        0 <= i <= j <= s.len(),
        spec_measure_children(s, i) is Err,
    ensures
        spec_measure_children(s, j) == spec_measure_children(s, i),
    decreases j - i,
{
    if i < j {
        lemma_children_err_persists(s, i, j - 1);
    }
}

/// Prefix node counts grow with the prefix.
pub proof fn lemma_count_element_seq_le(s: Seq<MarkupElement>, i: int, j: int)
    requires
        0 <= i <= j <= s.len(),
    ensures
        count_element_seq(s, i) <= count_element_seq(s, j),
    decreases j - i,
{
    if i < j {
        lemma_count_element_seq_le(s, i, j - 1);
    }
}

/// Each subtree of a child is smaller than the whole tree.
pub proof fn lemma_count_child_lt(e: MarkupElement, j: int)
    requires
        0 <= j < e.children@.len(),
    ensures
        count_elements(e.children@[j]) < count_elements(e),
{
    let s = e.children@;
    lemma_count_element_seq_le(s, j + 1, s.len() as int);
    assert(count_element_seq(s, j + 1) == count_element_seq(s, j) + count_elements(s[j]));
}

/// Partial sums of non-negative terms never exceed the full sum.
pub proof fn lemma_partial_sums_le(
    cs: Seq<MeasuredModel>,
    direction: LayoutDirection,
    i: int,
    j: int,
)
    requires
        0 <= i <= j <= cs.len(),
        forall|k: int| 0 <= k < cs.len() ==> dp_component(primary_of(#[trigger] cs[k], direction)) >= 0
            && star_component(primary_of(cs[k], direction)) >= 0,
    ensures
        sum_primary_dp(cs, direction, i) <= sum_primary_dp(cs, direction, j),
        sum_star_weights(cs, direction, i) <= sum_star_weights(cs, direction, j),
        max_secondary_dp(cs, direction, i) <= max_secondary_dp(cs, direction, j),
    decreases j - i,
{
    if i < j {
        lemma_partial_sums_le(cs, direction, i, j - 1);
    }
}

/// The bounds of [`measure_ok_bounds`] hold of every successful
/// measurement.
pub proof fn lemma_measure_in_bounds(e: MarkupElement)
    ensures
        spec_measure(e) is Ok ==> measure_ok_bounds(e, spec_measure(e)->Ok_0),
    decreases e, 1int, 0int,
{
    let s = e.children@;
    let n = s.len() as int;
    lemma_measure_children_bounds(s, n);
    if spec_measure(e) is Ok {
        let cs = spec_measure_children(s, n)->Ok_0;
        let m = spec_measure(e)->Ok_0;
        let direction = spec_direction(e)->Ok_0;
        let count = count_elements(e) as int;
        assert(count == 1 + count_element_seq(s, n));
        crate::markup::lemma_parse_bounds_for_node(e);
        assert(count_element_seq(s, n) * MAX_LENGTH_VALUE as int + MAX_LENGTH_VALUE as int
            == count * MAX_LENGTH_VALUE as int) by (nonlinear_arith)
            requires count == 1 + count_element_seq(s, n);
        assert(value_bound(m.width, count) && value_bound(m.height, count)) by {
            assert(MAX_LENGTH_VALUE as int <= count * MAX_LENGTH_VALUE as int) by (nonlinear_arith)
                requires count >= 1;
            assert(count_element_seq(s, n) * MAX_LENGTH_VALUE as int <= count
                * MAX_LENGTH_VALUE as int) by (nonlinear_arith)
                requires count == 1 + count_element_seq(s, n);
        }
        assert(count_measured(m) == count_elements(e)) by {
            assert(count_measured_seq(cs, n) == count_element_seq(s, n));
        }
        if count_elements(e) <= MAX_NODE_COUNT {
            assert(bounded_measured(m)) by {
                assert(count_element_seq(s, n) * MAX_LENGTH_VALUE as int <= MAX_CONTENT as int)
                    by (nonlinear_arith)
                    requires
                        count_element_seq(s, n) <= MAX_NODE_COUNT - 1,
                        MAX_CONTENT == MAX_NODE_COUNT * MAX_LENGTH_VALUE,
                ;
                assert(count * MAX_LENGTH_VALUE as int <= MAX_CONTENT as int) by (nonlinear_arith)
                    requires
                        count <= MAX_NODE_COUNT,
                        MAX_CONTENT == MAX_NODE_COUNT * MAX_LENGTH_VALUE,
                ;
            }
        }
    }
}

/// The bounds of [`children_ok_bounds`] hold of every successfully
/// measured child prefix.
pub proof fn lemma_measure_children_bounds(s: Seq<MarkupElement>, i: int)
    requires
        0 <= i <= s.len(),
    ensures
        spec_measure_children(s, i) is Ok ==> children_ok_bounds(
            s,
            i,
            spec_measure_children(s, i)->Ok_0,
        ),
    decreases s, 0int, i,
{
    if i > 0 && spec_measure_children(s, i) is Ok {
        lemma_measure_children_bounds(s, i - 1);
        lemma_measure_in_bounds(s[i - 1]);
        let prev = spec_measure_children(s, i - 1)->Ok_0;
        let m = spec_measure(s[i - 1])->Ok_0;
        let cs = prev.push(m);
        let child_count = count_elements(s[i - 1]) as int;
        lemma_prefix_fns_agree(prev, cs, LayoutDirection::Row, i - 1);
        lemma_prefix_fns_agree(prev, cs, LayoutDirection::Column, i - 1);
        assert(cs[i - 1] == m);
        assert(forall|j: int| 0 <= j < i - 1 ==> #[trigger] cs[j] == prev[j]);
        let per_row = dp_component(primary_of(m, LayoutDirection::Row));
        let per_col = dp_component(primary_of(m, LayoutDirection::Column));
        assert(per_row <= child_count * MAX_LENGTH_VALUE as int && per_col <= child_count
            * MAX_LENGTH_VALUE as int && dp_component(
            secondary_of(m, LayoutDirection::Row),
        ) <= child_count * MAX_LENGTH_VALUE as int && dp_component(
            secondary_of(m, LayoutDirection::Column),
        ) <= child_count * MAX_LENGTH_VALUE as int);
        assert(count_element_seq(s, i) == count_element_seq(s, i - 1) + child_count);
        assert((count_element_seq(s, i - 1) + child_count) * MAX_LENGTH_VALUE as int
            == count_element_seq(s, i - 1) * MAX_LENGTH_VALUE as int + child_count
            * MAX_LENGTH_VALUE as int) by (nonlinear_arith);
        assert(star_component(primary_of(m, LayoutDirection::Row)) <= MAX_LENGTH_VALUE as int
            && star_component(primary_of(m, LayoutDirection::Column)) <= MAX_LENGTH_VALUE as int);
        assert(MAX_LENGTH_VALUE as int <= child_count * MAX_LENGTH_VALUE as int)
            by (nonlinear_arith)
            requires child_count >= 1;
        if count_element_seq(s, i) <= MAX_NODE_COUNT {
            assert(count_element_seq(s, i - 1) <= MAX_NODE_COUNT);
            assert(count_elements(s[i - 1]) <= MAX_NODE_COUNT);
        }
    }
}

/// Maps a measurement result to its mathematical shape.
pub open spec fn measure_result_view(r: Result<MeasuredElement, LayoutError>) -> Result<
    MeasuredModel,
    ErrorModel,
> {
    match r {
        Ok(m) => Ok(measured_view(m)),
        Err(e) => Err(e@),
    }
}

/// A `content`-sized primary measure resolves to exactly its only
/// child's absolute primary size.
pub proof fn lemma_content_sizes_to_child(e: MarkupElement, direction: LayoutDirection, v: int)
    requires
        spec_measure(e) is Ok,
        spec_direction(e) == Ok::<LayoutDirection, ErrorModel>(direction),
        spec_primary(e, direction) == Ok::<Option<MarkupLength>, ErrorModel>(
            Some(MarkupLength::Content),
        ),
        e.children@.len() == 1,
        spec_measure(e.children@[0]) matches Ok(c) && primary_of(c, direction)
            == MeasuredLengthModel::Dp(v),
    ensures
        primary_of(spec_measure(e)->Ok_0, direction) == MeasuredLengthModel::Dp(v),
{
    let s = e.children@;
    let cs = spec_measure_children(s, 1)->Ok_0;
    assert(spec_measure_children(s, 0) == Ok::<Seq<MeasuredModel>, ErrorModel>(Seq::empty()));
    assert(cs == Seq::<MeasuredModel>::empty().push(spec_measure(s[0])->Ok_0));
    assert(sum_primary_dp(cs, direction, 0) == 0);
    assert(sum_primary_dp(cs, direction, 1) == v);
}

/// A `content`-sized primary measure resolves to zero when the node has
/// no children.
pub proof fn lemma_content_empty_is_zero(e: MarkupElement, direction: LayoutDirection)
    requires
        spec_measure(e) is Ok,
        spec_direction(e) == Ok::<LayoutDirection, ErrorModel>(direction),
        spec_primary(e, direction) == Ok::<Option<MarkupLength>, ErrorModel>(
            Some(MarkupLength::Content),
        ),
        e.children@.len() == 0,
    ensures
        primary_of(spec_measure(e)->Ok_0, direction) == MeasuredLengthModel::Dp(0),
{
    let s = e.children@;
    let cs = spec_measure_children(s, 0)->Ok_0;
    assert(sum_primary_dp(cs, direction, 0) == 0);
}

/// A proportional width on a node laid out along `Row` — where the width
/// is the secondary axis — is rejected with a configuration error naming
/// the node.
pub proof fn lemma_star_on_secondary_rejected(e: MarkupElement, k: u64)
    requires
        spec_measure_children(e.children@, e.children@.len() as int) is Ok,
        spec_direction(e) == Ok::<LayoutDirection, ErrorModel>(LayoutDirection::Row),
        spec_resolve_primary(
            e,
            LayoutDirection::Row,
            spec_measure_children(e.children@, e.children@.len() as int)->Ok_0,
        ) is Ok,
        crate::markup::spec_width(e) == Ok::<Option<MarkupLength>, ErrorModel>(
            Some(MarkupLength::Star(k)),
        ),
    ensures
        spec_measure(e) == Err::<MeasuredModel, ErrorModel>(
            ErrorModel::StarOnSecondary { number: e.number as int },
        ),
{
}

/// A `fill` height on a node laid out along `Row` — where the height is
/// the primary axis — is rejected with a configuration error naming the
/// node.
pub proof fn lemma_fill_on_primary_rejected(e: MarkupElement)
    requires
        spec_measure_children(e.children@, e.children@.len() as int) is Ok,
        spec_direction(e) == Ok::<LayoutDirection, ErrorModel>(LayoutDirection::Row),
        crate::markup::spec_height(e) == Ok::<Option<MarkupLength>, ErrorModel>(
            Some(MarkupLength::Fill),
        ),
    ensures
        spec_measure(e) == Err::<MeasuredModel, ErrorModel>(
            ErrorModel::FillOnPrimary { number: e.number as int },
        ),
{
}

/// The model of a vector of measured elements indexes element-wise.
pub proof fn lemma_measured_children_view_index(s: Seq<MeasuredElement>, i: int)
    requires
        0 <= i <= s.len(),
    ensures
        measured_children_view(s, i).len() == i,
        forall|j: int| 0 <= j < i ==> measured_children_view(s, i)[j] == measured_view(s[j]),
    decreases i,
{
    if i > 0 {
        lemma_measured_children_view_index(s, i - 1);
    }
}

impl MeasuredElement {
    /// The measure a parent laying out along `layout_direction` reads on
    /// this child's primary axis.
    pub fn primary_measure(&self, layout_direction: &LayoutDirection) -> (r: MeasuredLength)
        ensures
            r@ == primary_of(self@, *layout_direction),
    {
        match layout_direction {
            LayoutDirection::Row => self.height,
            LayoutDirection::Column => self.width,
        }
    }

    /// The measure a parent laying out along `layout_direction` reads on
    /// this child's secondary axis.
    pub fn secondary_measure(&self, layout_direction: &LayoutDirection) -> (r: MeasuredLength)
        ensures
            r@ == secondary_of(self@, *layout_direction),
    {
        match layout_direction {
            LayoutDirection::Row => self.width,
            LayoutDirection::Column => self.height,
        }
    }
}

/// Measures a whole markup tree, children before parents: `content`
/// lengths become the sum (primary axis) or maximum (secondary axis) of
/// the children's absolute sizes, declared sizes are kept, a missing
/// primary measure defaults to a weight of one and a missing secondary
/// measure to `fill`. Fails exactly on the first parse or configuration
/// error of the tree, in document order, naming the offending node.
pub fn measure_element_tree(elem: &MarkupElement) -> (r: Result<MeasuredElement, LayoutError>)
    requires
        count_elements(*elem) <= MAX_NODE_COUNT,
    ensures
        measure_result_view(r) == spec_measure(*elem),
    decreases count_elements(*elem),
{
    let ghost s = elem.children@;
    let ghost n_int = s.len() as int;
    let n = elem.children.len();
    let mut children: Vec<MeasuredElement> = Vec::new();

    let mut i: usize = 0;
    while i < n
        invariant
            i <= n,
            n == elem.children.len(),
            s == elem.children@,
            count_elements(*elem) <= MAX_NODE_COUNT,
            children@.len() == i,
            spec_measure_children(s, i as int) == Ok::<Seq<MeasuredModel>, ErrorModel>(
                measured_children_view(children@, i as int),
            ),
        decreases n - i,
    {
        proof {
            lemma_count_child_lt(*elem, i as int);
        }
        match measure_element_tree(&elem.children[i]) {
            Ok(m) => {
                proof {
                    lemma_measured_children_view_agree(children@, children@.push(m), i as int);
                    assert(children@.push(m)[i as int] == m);
                }
                children.push(m);
            },
            Err(er) => {
                proof {
                    assert(spec_measure(s[i as int]) == Err::<MeasuredModel, ErrorModel>(er@));
                    assert(spec_measure_children(s, i + 1) == Err::<Seq<MeasuredModel>, ErrorModel>(
                        er@,
                    ));
                    lemma_children_err_persists(s, i + 1, s.len() as int);
                    assert(spec_measure(*elem) == Err::<MeasuredModel, ErrorModel>(er@));
                }
                return Err(er);
            },
        }
        i = i + 1;
    }

    let ghost cs = measured_children_view(children@, n_int);
    proof {
        lemma_measure_children_bounds(s, n_int);
        lemma_measured_children_view_index(children@, n_int);
        lemma_count_element_seq_le(s, 0, n_int);
        assert(count_element_seq(s, n_int) < count_elements(*elem));
        assert(count_element_seq(s, n_int) * MAX_LENGTH_VALUE as int <= MAX_CONTENT as int)
            by (nonlinear_arith)
            requires
                count_element_seq(s, n_int) <= MAX_NODE_COUNT,
                MAX_CONTENT == MAX_NODE_COUNT * MAX_LENGTH_VALUE,
        ;
    }

    let direction = match elem.get_layout_direction() {
        Ok(d) => d,
        Err(er) => {
            return Err(er);
        },
    };

    let primary: MeasuredLength = match elem.get_primary_measure(&direction) {
        Err(er) => {
            return Err(er);
        },
        Ok(None) => MeasuredLength::Star(1),
        Ok(Some(MarkupLength::Dp(v))) => MeasuredLength::Dp(v),
        Ok(Some(MarkupLength::Star(v))) => MeasuredLength::Star(v),
        Ok(Some(MarkupLength::Fill)) => {
            return Err(LayoutError::FillOnPrimary { number: elem.number });
        },
        Ok(Some(MarkupLength::Content)) => {
            let mut total: u64 = 0;
            let mut j: usize = 0;
            while j < n
                invariant
                    j <= n,
                    n == children.len(),
                    cs == measured_children_view(children@, n as int),
                    cs.len() == n,
                    forall|k: int| 0 <= k < n ==> cs[k] == measured_view(
                        #[trigger] children@[k],
                    ),
                    sum_primary_dp(cs, direction, n as int) <= MAX_CONTENT,
                    total == sum_primary_dp(cs, direction, j as int),
                decreases n - j,
            {
                match children[j].primary_measure(&direction) {
                    MeasuredLength::Dp(v) => {
                        proof {
                            assert forall|k: int| 0 <= k < cs.len() implies dp_component(
                                primary_of(#[trigger] cs[k], direction),
                            ) >= 0 && star_component(primary_of(cs[k], direction)) >= 0 by {
                                assert(cs[k] == measured_view(children@[k]));
                            }
                            lemma_partial_sums_le(cs, direction, j + 1, n as int);
                        }
                        total = total + v;
                    },
                    MeasuredLength::Star(_) => {},
                    MeasuredLength::Fill => {},
                }
                j = j + 1;
            }
            MeasuredLength::Dp(total)
        },
    };

    let secondary: MeasuredLength = match elem.get_secondary_measure(&direction) {
        Err(er) => {
            return Err(er);
        },
        Ok(None) => MeasuredLength::Fill,
        Ok(Some(MarkupLength::Dp(v))) => MeasuredLength::Dp(v),
        Ok(Some(MarkupLength::Star(_))) => {
            return Err(LayoutError::StarOnSecondary { number: elem.number });
        },
        Ok(Some(MarkupLength::Fill)) => MeasuredLength::Fill,
        Ok(Some(MarkupLength::Content)) => {
            let mut best: u64 = 0;
            let mut j: usize = 0;
            while j < n
                invariant
                    j <= n,
                    n == children.len(),
                    cs == measured_children_view(children@, n as int),
                    cs.len() == n,
                    forall|k: int| 0 <= k < n ==> cs[k] == measured_view(
                        #[trigger] children@[k],
                    ),
                    best == max_secondary_dp(cs, direction, j as int),
                decreases n - j,
            {
                match children[j].secondary_measure(&direction) {
                    MeasuredLength::Dp(v) => {
                        if v > best {
                            best = v;
                        }
                    },
                    MeasuredLength::Star(_) => {},
                    MeasuredLength::Fill => {},
                }
                j = j + 1;
            }
            MeasuredLength::Dp(best)
        },
    };

    let measured = MeasuredElement {
        number: elem.number,
        width: match direction {
            LayoutDirection::Row => secondary,
            LayoutDirection::Column => primary,
        },
        height: match direction {
            LayoutDirection::Row => primary,
            LayoutDirection::Column => secondary,
        },
        layout_direction: direction,
        children,
    };
    proof {
        assert(measured_view(measured).children == cs);
        assert(primary@ == spec_resolve_primary(*elem, direction, cs)->Ok_0);
        assert(secondary@ == spec_resolve_secondary(*elem, direction, cs)->Ok_0);
    }
    Ok(measured)
}

} // verus!
