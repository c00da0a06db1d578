//! Shared layout vocabulary and the single entry point of the pipeline.

use vstd::prelude::*;

use crate::arranger::{
    arrange_layout_tree, spec_arrange, spec_flatten, COORD_LIMIT, LEVEL_SPAN, MAX_EXTENT,
};
use crate::markup::{count_element_seq, count_elements, spec_direction, MarkupElement, MAX_LENGTH_VALUE};
use crate::measurer::{
    bounded_measured, count_measured, lemma_children_err_persists, lemma_count_child_lt,
    lemma_measure_children_bounds, lemma_measured_children_view_agree, measure_element_tree,
    measured_children_view, spec_measure, spec_measure_children, MeasuredElement, MeasuredLength,
    MeasuredLengthModel, MeasuredModel, MAX_CONTENT, MAX_NODE_COUNT,
};
use crate::renderer::{rects_view, Rect, RectModel};

verus! {

/// How a container lays out its children.
///
/// `Row` stacks children top to bottom: the primary axis is the height and
/// the secondary (cross) axis is the width. `Column` lays children left to
/// right: the primary axis is the width, the secondary axis the height.
#[derive(Clone, Copy, PartialEq, Eq, Structural, Debug)]
pub enum LayoutDirection {
    Row,
    Column,
}

/// A resolved primary-axis length: proportional weights are legal here,
/// `fill` is not.
#[derive(Clone, Copy, PartialEq, Eq, Structural, Debug)]
pub enum PrimaryLength {
    Dp(u64),
    Star(u64),
    Content,
}

/// A resolved secondary-axis length: `fill` is legal here, proportional
/// weights are not.
#[derive(Clone, Copy, PartialEq, Eq, Structural, Debug)]
pub enum SecondaryLength {
    Dp(u64),
    Fill,
}

/// A fatal layout error. Every variant names the `number` of the offending
/// node; the whole layout call is aborted, no partial result is produced.
#[derive(Debug, PartialEq)]
pub enum LayoutError {
    /// A `width` or `height` attribute did not match the length grammar.
    BadLength { number: i32, text: String },
    /// A `layout-direction` attribute was neither `row` nor `column`.
    BadDirection { number: i32, text: String },
    /// A `fill` length was used on a primary axis.
    FillOnPrimary { number: i32 },
    /// A proportional length was used on a secondary axis.
    StarOnSecondary { number: i32 },
}

/// The mathematical shape of a [`LayoutError`]: attribute text as a
/// character sequence, the node number as an unbounded integer.
pub ghost enum ErrorModel {
    BadLength { number: int, text: Seq<char> },
    BadDirection { number: int, text: Seq<char> },
    FillOnPrimary { number: int },
    StarOnSecondary { number: int },
}

impl View for LayoutError {
    type V = ErrorModel;

    open spec fn view(&self) -> ErrorModel {
        match self {
            LayoutError::BadLength { number, text } => ErrorModel::BadLength {
                number: *number as int,
                text: text@,
            },
            LayoutError::BadDirection { number, text } => ErrorModel::BadDirection {
                number: *number as int,
                text: text@,
            },
            LayoutError::FillOnPrimary { number } => ErrorModel::FillOnPrimary {
                number: *number as int,
            },
            LayoutError::StarOnSecondary { number } => ErrorModel::StarOnSecondary {
                number: *number as int,
            },
        }
    }
}

/// Maps the error of a `Result` to its mathematical shape, leaving the
/// success value as it is.
pub open spec fn err_view<T>(r: Result<T, LayoutError>) -> Result<T, ErrorModel> {
    match r {
        Ok(v) => Ok(v),
        Err(e) => Err(e@),
    }
}

/// The whole pipeline on a markup tree and a viewport: the root is
/// forced to a weight of one on both axes (its own size attributes are
/// ignored), measured children and all, arranged to exactly the viewport
/// rectangle, and flattened to the pre-order rectangle list.
pub open spec fn spec_layout(root: MarkupElement, width: int, height: int) -> Result<
    Seq<RectModel>,
    ErrorModel,
> {
    match spec_direction(root) {
        Err(er) => Err(er),
        Ok(direction) => match spec_measure_children(
            root.children@,
            root.children@.len() as int,
        ) {
            Err(er) => Err(er),
            Ok(children) => {
                let m = MeasuredModel {
                    number: root.number as int,
                    width: MeasuredLengthModel::Star(1),
                    height: MeasuredLengthModel::Star(1),
                    direction,
                    children,
                };
                match spec_arrange(m, 0, 0, width, height) {
                    Err(er) => Err(er),
                    Ok(a) => Ok(spec_flatten(a)),
                }
            },
        },
    }
}

/// Maps a layout result to its mathematical shape.
pub open spec fn layout_result_view(r: Result<Vec<Rect>, LayoutError>) -> Result<
    Seq<RectModel>,
    ErrorModel,
> {
    match r {
        Ok(v) => Ok(rects_view(v@)),
        Err(e) => Err(e@),
    }
}

/// Runs measurement, arrangement and flattening on a markup tree and a
/// viewport of `width` by `height` device-independent units. The root is
/// always arranged to exactly the viewport rectangle at the origin; its
/// own size attributes are ignored. Fails exactly on the first parse or
/// configuration error found, naming the offending node. A call accepts
/// trees of at most [`MAX_NODE_COUNT`] nodes and viewports of at most
/// [`MAX_EXTENT`] units on each side, which keeps every computed
/// coordinate within machine integers.
pub fn generate_layout(root_elem: &MarkupElement, width: u64, height: u64) -> (r: Result<
    Vec<Rect>,
    LayoutError,
>)
    requires
        count_elements(*root_elem) <= MAX_NODE_COUNT,
        width <= MAX_EXTENT,
        height <= MAX_EXTENT,
    ensures
        layout_result_view(r) == spec_layout(*root_elem, width as int, height as int),
{
    let ghost s = root_elem.children@;
    let ghost n_int = s.len() as int;

    let direction = match root_elem.get_layout_direction() {
        Ok(d) => d,
        Err(er) => {
            return Err(er);
        },
    };

    let n = root_elem.children.len();
    let mut children: Vec<MeasuredElement> = Vec::new();
    let mut i: usize = 0;
    while i < n
        invariant
            i <= n,
            n == root_elem.children.len(),
            s == root_elem.children@,
            count_elements(*root_elem) <= MAX_NODE_COUNT,
            spec_direction(*root_elem) == Ok::<LayoutDirection, ErrorModel>(direction),
            children@.len() == i,
            spec_measure_children(s, i as int) == Ok::<Seq<MeasuredModel>, ErrorModel>(
                measured_children_view(children@, i as int),
            ),
        decreases n - i,
    {
        proof {
            lemma_count_child_lt(*root_elem, i as int);
        }
        match measure_element_tree(&root_elem.children[i]) {
            Ok(m) => {
                proof {
                    lemma_measured_children_view_agree(children@, children@.push(m), i as int);
                    assert(children@.push(m)[i as int] == m);
                }
                children.push(m);
            },
            Err(er) => {
                proof {
                    assert(spec_measure(s[i as int]) == Err::<MeasuredModel, ErrorModel>(er@));
                    assert(spec_measure_children(s, i + 1) == Err::<Seq<MeasuredModel>, ErrorModel>(
                        er@,
                    ));
                    lemma_children_err_persists(s, i + 1, s.len() as int);
                }
                return Err(er);
            },
        }
        i = i + 1;
    }

    let measured_tree = MeasuredElement {
        number: root_elem.number,
        width: MeasuredLength::Star(1),
        height: MeasuredLength::Star(1),
        layout_direction: direction,
        children,
    };

    proof {
        lemma_measure_children_bounds(s, n_int);
        let cs = measured_children_view(measured_tree.children@, n_int);
        let mm = crate::measurer::measured_view(measured_tree);
        assert(mm.children == cs);
        assert(count_element_seq(s, n_int) < count_elements(*root_elem));
        assert(count_element_seq(s, n_int) * MAX_LENGTH_VALUE as int <= MAX_CONTENT as int)
            by (nonlinear_arith)
            requires
                count_element_seq(s, n_int) <= MAX_NODE_COUNT,
                MAX_CONTENT == MAX_NODE_COUNT * MAX_LENGTH_VALUE,
        ;
        assert(bounded_measured(mm));
        assert(count_measured(mm) == 1 + count_element_seq(s, n_int));
        assert(count_measured(mm) * LEVEL_SPAN <= COORD_LIMIT) by (nonlinear_arith)
            requires
                count_measured(mm) <= MAX_NODE_COUNT,
                MAX_NODE_COUNT == 65536,
                LEVEL_SPAN == MAX_CONTENT + MAX_EXTENT,
                MAX_CONTENT == MAX_NODE_COUNT * MAX_LENGTH_VALUE,
                MAX_LENGTH_VALUE == 1048576,
                MAX_EXTENT == 1099511627776,
                COORD_LIMIT == 4611686018427387904,
        ;
    }

    match arrange_layout_tree(&measured_tree, 0, 0, width, height) {
        Ok(a) => Ok(a.flatten()),
        Err(er) => Err(er),
    }
}

/// The pipeline is a pure function of the markup tree and the viewport:
/// two layout results of identical inputs are identical, there is no
/// hidden state.
pub proof fn lemma_layout_deterministic(
    root: MarkupElement,
    width: int,
    height: int,
    r1: Result<Seq<RectModel>, ErrorModel>,
    r2: Result<Seq<RectModel>, ErrorModel>,
)
    requires
        r1 == spec_layout(root, width, height),
        r2 == spec_layout(root, width, height),
    ensures
        r1 == r2,
{
}

/// A successful layout emits exactly one rectangle per markup node, in
/// pre-order: measurement and arrangement neither add nor drop nodes,
/// and the flattening walks the arranged tree node by node.
pub proof fn lemma_layout_counts_nodes(root: MarkupElement, width: int, height: int)
    requires
        spec_layout(root, width, height) is Ok,
    ensures
        spec_layout(root, width, height)->Ok_0.len() == count_elements(root),
{
    let s = root.children@;
    let n = s.len() as int;
    let direction = spec_direction(root)->Ok_0;
    let children = spec_measure_children(s, n)->Ok_0;
    let m = MeasuredModel {
        number: root.number as int,
        width: MeasuredLengthModel::Star(1),
        height: MeasuredLengthModel::Star(1),
        direction,
        children,
    };
    lemma_measure_children_bounds(s, n);
    assert(count_measured(m) == count_elements(root));
    crate::arranger::lemma_arrange_preserves_count(m, 0, 0, width, height);
    crate::arranger::lemma_flatten_count(spec_arrange(m, 0, 0, width, height)->Ok_0);
}

/// The first rectangle of any successful layout is exactly the
/// viewport: the root always fills the rectangle it is given, at the
/// origin.
pub proof fn lemma_root_fills_viewport(root: MarkupElement, width: int, height: int)
    requires
        spec_layout(root, width, height) is Ok,
    ensures
        ({
            let rects = spec_layout(root, width, height)->Ok_0;
            &&& rects.len() >= 1
            &&& rects[0].x == 0
            &&& rects[0].y == 0
            &&& rects[0].width == width
            &&& rects[0].height == height
        }),
{
    let direction = spec_direction(root)->Ok_0;
    let children = spec_measure_children(root.children@, root.children@.len() as int)->Ok_0;
    let m = MeasuredModel {
        number: root.number as int,
        width: MeasuredLengthModel::Star(1),
        height: MeasuredLengthModel::Star(1),
        direction,
        children,
    };
    let a = crate::arranger::spec_arrange(m, 0, 0, width, height)->Ok_0;
    assert(a.x == 0 && a.y == 0 && a.width == width && a.height == height);
    let rects = crate::arranger::spec_flatten(a);
    assert(rects[0] == crate::arranger::rect_model_of(a));
}

} // verus!
