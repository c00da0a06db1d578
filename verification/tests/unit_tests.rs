use face::arranger::{ArrangedElement, CombinedMeasuredLength};
use face::layout::LayoutDirection;
use face::markup::{parse_length, MarkupElement, MarkupLength};
use face::measurer::{MeasuredElement, MeasuredLength};
use face::renderer::{ArgbColour, ColourParseError};

fn node_with(pairs: &[(&str, &str)]) -> MarkupElement {
    MarkupElement {
        node_name: String::from("box"),
        number: 11,
        attributes: pairs.iter().map(|(k, v)| (String::from(*k), String::from(*v))).collect(),
        children: vec![],
    }
}

#[test]
pub fn test_hex_to_argb() {
    assert_eq!(ArgbColour::from_hex("#ffffff").unwrap(), ArgbColour { a: 255, r: 255, g: 255, b: 255 });
    assert_eq!(ArgbColour::from_hex("#000000").unwrap(), ArgbColour { a: 255, r: 0, g: 0, b: 0 });
    assert_eq!(ArgbColour::from_hex("#FF0000").unwrap(), ArgbColour { a: 255, r: 255, g: 0, b: 0 });
    assert_eq!(ArgbColour::from_hex("#00FF00").unwrap(), ArgbColour { a: 255, r: 0, g: 255, b: 0 });
    assert_eq!(ArgbColour::from_hex("#0000FF").unwrap(), ArgbColour { a: 255, r: 0, g: 0, b: 255 });
}

#[test]
fn hex_colour_short_and_long_forms() {
    assert_eq!(ArgbColour::from_hex("#fff").unwrap(), ArgbColour { a: 255, r: 255, g: 255, b: 255 });
    assert_eq!(ArgbColour::from_hex("#a4031f").unwrap(), ArgbColour { a: 255, r: 0xA4, g: 0x03, b: 0x1F });
    assert_eq!(ArgbColour::from_hex("80ff0000").unwrap(), ArgbColour { a: 128, r: 255, g: 0, b: 0 });
    assert_eq!(ArgbColour::from_hex("123").unwrap(), ArgbColour { a: 255, r: 17, g: 34, b: 51 });
}

#[test]
fn hex_colour_rejects_bad_text() {
    assert_eq!(ArgbColour::from_hex("#zzz"), Err(ColourParseError {}));
    assert_eq!(ArgbColour::from_hex("#12345"), Err(ColourParseError {}));
    assert_eq!(ArgbColour::from_hex(""), Err(ColourParseError {}));
    assert_eq!(ArgbColour::from_hex("#ffgfff"), Err(ColourParseError {}));
}

#[test]
fn invert_flips_every_channel_but_alpha() {
    let black = ArgbColour { a: 255, r: 0, g: 0, b: 0 };
    assert_eq!(black.invert(), ArgbColour { a: 255, r: 255, g: 255, b: 255 });
    let odd = ArgbColour { a: 128, r: 0x12, g: 0x34, b: 0x56 };
    assert_eq!(odd.invert(), ArgbColour { a: 128, r: 0xED, g: 0xCB, b: 0xA9 });
}

#[test]
fn parse_length_recognizes_each_unit() {
    assert_eq!(parse_length("40dp"), Some(MarkupLength::Dp(40)));
    assert_eq!(parse_length("0dp"), Some(MarkupLength::Dp(0)));
    assert_eq!(parse_length("2*"), Some(MarkupLength::Star(2)));
    assert_eq!(parse_length("content"), Some(MarkupLength::Content));
    assert_eq!(parse_length("fill"), Some(MarkupLength::Fill));
}

#[test]
fn parse_length_rejects_everything_else() {
    assert_eq!(parse_length(""), None);
    assert_eq!(parse_length("dp"), None);
    assert_eq!(parse_length("*"), None);
    assert_eq!(parse_length("0*"), None);
    assert_eq!(parse_length("12px"), None);
    assert_eq!(parse_length("12 dp"), None);
    assert_eq!(parse_length("-3dp"), None);
    assert_eq!(parse_length("Content"), None);
    // Values past the accepted range are refused rather than truncated.
    assert_eq!(parse_length("99999999999999999999dp"), None);
    assert_eq!(parse_length("1048576dp"), Some(MarkupLength::Dp(1048576)));
    assert_eq!(parse_length("1048577dp"), None);
}

#[test]
fn direction_attribute_is_read_case_sensitively() {
    assert_eq!(node_with(&[]).get_layout_direction().unwrap(), LayoutDirection::Row);
    assert_eq!(
        node_with(&[("layout-direction", "row")]).get_layout_direction().unwrap(),
        LayoutDirection::Row,
    );
    assert_eq!(
        node_with(&[("layout-direction", "column")]).get_layout_direction().unwrap(),
        LayoutDirection::Column,
    );
    assert!(node_with(&[("layout-direction", "Row")]).get_layout_direction().is_err());
}

#[test]
fn width_and_height_accessors_parse_their_attributes() {
    let node = node_with(&[("width", "30dp"), ("height", "fill")]);
    assert_eq!(node.get_width().unwrap(), Some(MarkupLength::Dp(30)));
    assert_eq!(node.get_height().unwrap(), Some(MarkupLength::Fill));
    assert_eq!(node_with(&[]).get_width().unwrap(), None);
    assert!(node_with(&[("width", "1mm")]).get_width().is_err());
}

#[test]
fn primary_and_secondary_swap_with_direction() {
    let node = node_with(&[("width", "10dp"), ("height", "20dp")]);
    assert_eq!(
        node.get_primary_measure(&LayoutDirection::Row).unwrap(),
        Some(MarkupLength::Dp(20)),
    );
    assert_eq!(
        node.get_primary_measure(&LayoutDirection::Column).unwrap(),
        Some(MarkupLength::Dp(10)),
    );
    assert_eq!(
        node.get_secondary_measure(&LayoutDirection::Row).unwrap(),
        Some(MarkupLength::Dp(10)),
    );
    assert_eq!(
        node.get_secondary_measure(&LayoutDirection::Column).unwrap(),
        Some(MarkupLength::Dp(20)),
    );
}

#[test]
fn later_attribute_entries_win() {
    let node = node_with(&[("width", "10dp"), ("width", "25dp")]);
    assert_eq!(node.get_width().unwrap(), Some(MarkupLength::Dp(25)));
}

#[test]
fn measured_axes_swap_with_direction() {
    let m = MeasuredElement {
        number: 1,
        width: MeasuredLength::Dp(10),
        height: MeasuredLength::Dp(20),
        layout_direction: LayoutDirection::Row,
        children: vec![],
    };
    assert_eq!(m.primary_measure(&LayoutDirection::Row), MeasuredLength::Dp(20));
    assert_eq!(m.primary_measure(&LayoutDirection::Column), MeasuredLength::Dp(10));
    assert_eq!(m.secondary_measure(&LayoutDirection::Row), MeasuredLength::Dp(10));
    assert_eq!(m.secondary_measure(&LayoutDirection::Column), MeasuredLength::Dp(20));
}

#[test]
fn flatten_assigns_palette_colours_by_identity() {
    let tree = ArrangedElement {
        number: 0,
        x: 0,
        y: 0,
        width: 10,
        height: 10,
        children: vec![ArrangedElement {
            number: 7,
            x: 1,
            y: 2,
            width: 3,
            height: 4,
            children: vec![],
        }],
    };
    let rects = tree.flatten();
    assert_eq!(rects.len(), 2);
    // The palette has seven entries, picked by the identity modulo
    // seven: node 7 wraps around to the same colour as node 0.
    assert_eq!(rects[0].fill_colour, rects[1].fill_colour);
    assert_eq!(rects[0].fill_colour, ArgbColour { a: 255, r: 0xF2, g: 0xDC, b: 0x5D });
    assert_eq!(rects[0].stroke_colour, ArgbColour { a: 255, r: 0, g: 0, b: 0 });
    assert_eq!((rects[1].x, rects[1].y, rects[1].width, rects[1].height), (1, 2, 3, 4));
}

#[test]
fn combined_lengths_add_componentwise() {
    let zero = CombinedMeasuredLength::zero();
    assert_eq!((zero.dp, zero.star), (0, 0));
    let with_dp = zero.combine(&MeasuredLength::Dp(40));
    let with_star = with_dp.combine(&MeasuredLength::Star(2));
    assert_eq!((with_star.dp, with_star.star), (40, 2));
    let doubled = CombinedMeasuredLength::add(
        CombinedMeasuredLength { dp: 40, star: 2 },
        CombinedMeasuredLength { dp: 5, star: 1 },
    );
    assert_eq!((doubled.dp, doubled.star), (45, 3));
}
