use face::arranger::{arrange_layout_tree, ArrangedElement};
use face::layout::{generate_layout, LayoutDirection, LayoutError};
use face::markup::MarkupElement;
use face::measurer::{measure_element_tree, MeasuredElement, MeasuredLength};

fn attrs(pairs: &[(&str, &str)]) -> Vec<(String, String)> {
    pairs.iter().map(|(k, v)| (String::from(*k), String::from(*v))).collect()
}

fn leaf(number: i32, pairs: &[(&str, &str)]) -> MarkupElement {
    MarkupElement {
        node_name: String::from("box"),
        number,
        attributes: attrs(pairs),
        children: vec![],
    }
}

#[test]
fn single_element_is_one_big_rect() {}

#[test]
fn single_elem_markup_tree_can_be_measured() {
    let single_elem_doc = MarkupElement {
        node_name: String::from("imuroot"),
        number: 0,
        attributes: attrs(&[("version", "0.0.0")]),
        children: vec![MarkupElement {
            node_name: String::from("box"),
            number: 1,
            attributes: vec![],
            children: vec![],
        }],
    };
    let result = measure_element_tree(&single_elem_doc).unwrap();

    // With no attributes, the primary measure (the height, under the
    // default `Row` direction) defaults to a weight of one and the
    // secondary measure (the width) defaults to `fill`.
    let expected_measured_tree = MeasuredElement {
        number: 0,
        width: MeasuredLength::Fill,
        height: MeasuredLength::Star(1),
        layout_direction: LayoutDirection::Row,
        children: vec![MeasuredElement {
            number: 1,
            layout_direction: LayoutDirection::Row,
            width: MeasuredLength::Fill,
            height: MeasuredLength::Star(1),
            children: vec![],
        }],
    };
    assert_eq!(result, expected_measured_tree);
}

#[test]
fn single_elem_measured_tree_can_be_arranged() {
    // The child takes the whole leftover on the primary axis and fills
    // the parent on the secondary axis.
    let measured_tree = MeasuredElement {
        number: 0,
        width: MeasuredLength::Star(1),
        height: MeasuredLength::Star(1),
        layout_direction: LayoutDirection::Row,
        children: vec![MeasuredElement {
            number: 1,
            layout_direction: LayoutDirection::Row,
            width: MeasuredLength::Fill,
            height: MeasuredLength::Star(1),
            children: vec![],
        }],
    };
    let width = 333;
    let height = 777;
    let result = arrange_layout_tree(&measured_tree, 0, 0, width, height).unwrap();

    let expected_arranged_tree = ArrangedElement {
        number: 0,
        x: 0,
        y: 0,
        width,
        height,
        children: vec![ArrangedElement {
            number: 1,
            x: 0,
            y: 0,
            width,
            height,
            children: vec![],
        }],
    };
    assert_eq!(result, expected_arranged_tree);
}

#[test]
fn layout_is_idempotent() {
    let doc = MarkupElement {
        node_name: String::from("imuroot"),
        number: 0,
        attributes: vec![],
        children: vec![
            leaf(1, &[("height", "40dp")]),
            leaf(2, &[("height", "2*")]),
            leaf(3, &[]),
        ],
    };
    let first = generate_layout(&doc, 800, 600).unwrap();
    let second = generate_layout(&doc, 800, 600).unwrap();
    assert_eq!(first, second);
}

#[test]
fn root_rect_fills_viewport() {
    let doc = MarkupElement {
        node_name: String::from("imuroot"),
        number: 7,
        attributes: attrs(&[("width", "40dp"), ("height", "10dp")]),
        children: vec![leaf(1, &[]), leaf(2, &[("height", "17dp")])],
    };
    // The root's own size attributes are ignored: it is arranged to the
    // viewport exactly.
    let rects = generate_layout(&doc, 641, 483).unwrap();
    assert_eq!(rects[0].x, 0);
    assert_eq!(rects[0].y, 0);
    assert_eq!(rects[0].width, 641);
    assert_eq!(rects[0].height, 483);
}

#[test]
fn single_child_fills_viewport() {
    let doc = MarkupElement {
        node_name: String::from("imuroot"),
        number: 0,
        attributes: vec![],
        children: vec![leaf(1, &[])],
    };
    let rects = generate_layout(&doc, 333, 777).unwrap();
    assert_eq!(rects.len(), 2);
    assert_eq!((rects[1].x, rects[1].y, rects[1].width, rects[1].height), (0, 0, 333, 777));
}

#[test]
fn row_mix_splits_leftover_by_weight() {
    let doc = MarkupElement {
        node_name: String::from("imuroot"),
        number: 0,
        attributes: vec![],
        children: vec![
            leaf(1, &[("height", "40dp")]),
            leaf(2, &[("height", "2*")]),
            leaf(3, &[]),
            leaf(4, &[("height", "20dp")]),
        ],
    };
    let rects = generate_layout(&doc, 800, 600).unwrap();
    assert_eq!(rects.len(), 5);
    // leftover = 600 - 60 = 540; weights 2 and 1 share it as 360 and 180.
    assert_eq!((rects[1].y, rects[1].height, rects[1].width), (0, 40, 800));
    assert_eq!((rects[2].y, rects[2].height, rects[2].width), (40, 360, 800));
    assert_eq!((rects[3].y, rects[3].height, rects[3].width), (400, 180, 800));
    assert_eq!((rects[4].y, rects[4].height, rects[4].width), (580, 20, 800));
}

#[test]
fn column_direction_lays_children_left_to_right() {
    let doc = MarkupElement {
        node_name: String::from("imuroot"),
        number: 0,
        attributes: attrs(&[("layout-direction", "column")]),
        children: vec![
            leaf(1, &[("layout-direction", "column"), ("width", "100dp")]),
            leaf(2, &[("layout-direction", "column"), ("width", "3*")]),
        ],
    };
    let rects = generate_layout(&doc, 500, 200).unwrap();
    assert_eq!((rects[1].x, rects[1].y, rects[1].width, rects[1].height), (0, 0, 100, 200));
    assert_eq!((rects[2].x, rects[2].y, rects[2].width, rects[2].height), (100, 0, 400, 200));
}

#[test]
fn overfull_parent_clamps_proportional_children_to_zero() {
    // The absolute children ask for more than the parent has: the
    // leftover is clamped to zero, so the proportional child gets no
    // space while the absolute children keep their declared sizes.
    let doc = MarkupElement {
        node_name: String::from("imuroot"),
        number: 0,
        attributes: vec![],
        children: vec![
            leaf(1, &[("height", "60dp")]),
            leaf(2, &[("height", "60dp")]),
            leaf(3, &[]),
        ],
    };
    let rects = generate_layout(&doc, 200, 100).unwrap();
    assert_eq!((rects[1].y, rects[1].height), (0, 60));
    assert_eq!((rects[2].y, rects[2].height), (60, 60));
    assert_eq!((rects[3].y, rects[3].height), (120, 0));
}

#[test]
fn truncating_division_leaves_a_remainder_unassigned() {
    // leftover = 100, weights 3: each share is truncated, so the three
    // one-weight children get 33 units each and one unit stays unused.
    let doc = MarkupElement {
        node_name: String::from("imuroot"),
        number: 0,
        attributes: vec![],
        children: vec![leaf(1, &[]), leaf(2, &[]), leaf(3, &[])],
    };
    let rects = generate_layout(&doc, 50, 100).unwrap();
    assert_eq!((rects[1].y, rects[1].height), (0, 33));
    assert_eq!((rects[2].y, rects[2].height), (33, 33));
    assert_eq!((rects[3].y, rects[3].height), (66, 33));
}

#[test]
fn node_count_is_conserved() {
    let doc = MarkupElement {
        node_name: String::from("imuroot"),
        number: 0,
        attributes: vec![],
        children: vec![
            MarkupElement {
                node_name: String::from("box"),
                number: 1,
                attributes: vec![],
                children: vec![leaf(2, &[("height", "5dp")]), leaf(3, &[])],
            },
            leaf(4, &[]),
        ],
    };
    let rects = generate_layout(&doc, 300, 300).unwrap();
    assert_eq!(rects.len(), 5);
    // Pre-order: the first child subtree comes before the second child.
    assert_eq!(rects[2].height, 5);
}

#[test]
fn star_on_secondary_axis_is_rejected() {
    // Under the default `Row` direction the width is the secondary axis:
    // a proportional width is a configuration error.
    let doc = MarkupElement {
        node_name: String::from("imuroot"),
        number: 0,
        attributes: vec![],
        children: vec![leaf(9, &[("width", "1*")])],
    };
    let result = generate_layout(&doc, 100, 100);
    assert!(matches!(result, Err(LayoutError::StarOnSecondary { number: 9 })));
}

#[test]
fn fill_on_primary_axis_is_rejected() {
    // Under the default `Row` direction the height is the primary axis:
    // a `fill` height is a configuration error.
    let doc = MarkupElement {
        node_name: String::from("imuroot"),
        number: 0,
        attributes: vec![],
        children: vec![leaf(5, &[("height", "fill")])],
    };
    let result = generate_layout(&doc, 100, 100);
    assert!(matches!(result, Err(LayoutError::FillOnPrimary { number: 5 })));
}

#[test]
fn bad_direction_is_rejected() {
    let doc = MarkupElement {
        node_name: String::from("imuroot"),
        number: 3,
        attributes: attrs(&[("layout-direction", "diagonal")]),
        children: vec![],
    };
    let result = generate_layout(&doc, 100, 100);
    match result {
        Err(LayoutError::BadDirection { number, text }) => {
            assert_eq!(number, 3);
            assert_eq!(text, "diagonal");
        },
        other => panic!("expected a direction error, got {:?}", other),
    }
}

#[test]
fn bad_length_text_is_rejected() {
    let doc = MarkupElement {
        node_name: String::from("imuroot"),
        number: 0,
        attributes: vec![],
        children: vec![leaf(6, &[("height", "12px")])],
    };
    let result = generate_layout(&doc, 100, 100);
    match result {
        Err(LayoutError::BadLength { number, text }) => {
            assert_eq!(number, 6);
            assert_eq!(text, "12px");
        },
        other => panic!("expected a length error, got {:?}", other),
    }
}

#[test]
fn content_parent_takes_child_size() {
    // Under `Column` the width is the primary axis: a content-sized
    // width sums the children's absolute widths.
    let doc = MarkupElement {
        node_name: String::from("imuroot"),
        number: 0,
        attributes: attrs(&[("layout-direction", "column")]),
        children: vec![MarkupElement {
            node_name: String::from("box"),
            number: 1,
            attributes: attrs(&[("layout-direction", "column"), ("width", "content")]),
            children: vec![leaf(2, &[("width", "40dp")])],
        }],
    };
    let measured = measure_element_tree(&doc).unwrap();
    assert_eq!(measured.children[0].width, MeasuredLength::Dp(40));
}

#[test]
fn content_parent_with_no_children_is_zero() {
    let doc = MarkupElement {
        node_name: String::from("box"),
        number: 0,
        attributes: attrs(&[("layout-direction", "column"), ("width", "content")]),
        children: vec![],
    };
    let measured = measure_element_tree(&doc).unwrap();
    assert_eq!(measured.width, MeasuredLength::Dp(0));
}

#[test]
fn content_secondary_takes_largest_child() {
    // Under `Row` the width is the secondary axis: a content-sized width
    // takes the largest absolute child width.
    let doc = MarkupElement {
        node_name: String::from("box"),
        number: 0,
        attributes: attrs(&[("width", "content")]),
        children: vec![
            leaf(1, &[("width", "30dp")]),
            leaf(2, &[("width", "70dp")]),
            leaf(3, &[]),
        ],
    };
    let measured = measure_element_tree(&doc).unwrap();
    assert_eq!(measured.width, MeasuredLength::Dp(70));
}
