use primeclue::data::common::InputShape;
use primeclue::data::data_set::{count_classes, transpose, validate_data_point};
use primeclue::data::Data;
use primeclue::exec::classifier::{compose_labels, score_predictions, validate_classifier_parts};
use primeclue::exec::node::{node_count, take_node, NodeShape, WeightedShape};
use primeclue::exec::training::{select_within_limit, validate_views};

#[test]
fn compose_labels_last_positive_vote_wins() {
    let labels = vec!["a".to_owned(), "b".to_owned(), "c".to_owned()];
    let votes = vec![
        vec![Some(true), Some(true), None, Some(false)],
        vec![Some(false), Some(true), None, Some(false)],
        vec![Some(true), None, None, Some(false)],
    ];
    let r = compose_labels(&labels, &votes, 4);
    assert_eq!(r, vec!["c".to_owned(), "b".to_owned(), "".to_owned(), "".to_owned()]);
}

#[test]
fn compose_labels_no_trees() {
    let r = compose_labels(&vec![], &vec![], 3);
    assert_eq!(r, vec!["".to_owned(), "".to_owned(), "".to_owned()]);
}

#[test]
fn transpose_puts_coordinates_together() {
    let shape = InputShape::new(2, 3);
    let mut a = Data::new();
    a.add_row(vec![1, 2, 3]).unwrap();
    a.add_row(vec![4, 5, 6]).unwrap();
    let mut b = Data::new();
    b.add_row(vec![7, 8, 9]).unwrap();
    b.add_row(vec![10, 11, 12]).unwrap();
    let view = transpose(&vec![a, b], shape);
    assert_eq!(*view.input_shape(), shape);
    assert_eq!(*view.get(0, 0), vec![1, 7]);
    assert_eq!(*view.get(0, 2), vec![3, 9]);
    assert_eq!(*view.get(1, 1), vec![5, 11]);
}

#[test]
fn count_classes_exact() {
    let mut r = count_classes(&vec![2u16, 0, 2, 2, 1, 0]);
    r.sort();
    assert_eq!(r, vec![(0u16, 2usize), (1, 1), (2, 3)]);
    assert_eq!(count_classes(&vec![]), vec![]);
}

#[test]
fn validate_views_cases() {
    let s = InputShape::new(1, 2);
    let t = InputShape::new(2, 2);
    assert!(validate_views(false, false, 2, 2, s, s).is_ok());
    let r = validate_views(true, false, 2, 2, s, s);
    assert_eq!(r.err().unwrap().message_str(), "Data training set is empty");
    let r = validate_views(false, true, 2, 2, s, s);
    assert_eq!(r.err().unwrap().message_str(), "Data verification set is empty");
    let r = validate_views(false, false, 2, 3, s, s);
    assert_eq!(
        r.err().unwrap().message_str(),
        "Training and verification data differ in class count"
    );
    let r = validate_views(false, false, 2, 2, s, t);
    assert_eq!(
        r.err().unwrap().message_str(),
        "Training and verification data differ in data size"
    );
}

#[test]
fn validate_classifier_parts_cases() {
    assert!(validate_classifier_parts(2, 2).is_ok());
    assert_eq!(
        validate_classifier_parts(0, 1).err().unwrap().message_str(),
        "Class map is empty"
    );
    assert_eq!(
        validate_classifier_parts(2, 0).err().unwrap().message_str(),
        "Tree vectors is empty"
    );
    assert_eq!(
        validate_classifier_parts(2, 3).err().unwrap().message_str(),
        "Class / Tree vectors lengths don't match"
    );
}

#[test]
fn validate_data_point_cases() {
    let s = InputShape::new(1, 2);
    let t = InputShape::new(1, 3);
    assert!(validate_data_point(s, s, true).is_ok());
    assert_eq!(validate_data_point(s, t, true).err().unwrap().message_str(), "Invalid input size");
    assert_eq!(
        validate_data_point(s, s, false).err().unwrap().message_str(),
        "Class not found in DataSet's classes"
    );
}

#[test]
fn select_within_limit_keeps_smallest_first() {
    let keep = select_within_limit(&vec![2usize, 3, 5, 7], 10);
    assert_eq!(keep, vec![true, true, true, false]);
    let keep = select_within_limit(&vec![4usize, 4, 4], 8);
    assert_eq!(keep, vec![true, true, false]);
    let keep = select_within_limit(&vec![20usize, 1], 10);
    assert_eq!(keep, vec![false, true]);
    assert_eq!(select_within_limit(&vec![], 10), Vec::<bool>::new());
}

#[test]
fn row_column_from_is_deterministic() {
    let shape = InputShape::new(3, 5);
    let forbidden = vec![0usize, 2, 4];
    assert_eq!(shape.allowed_columns(&forbidden), vec![1, 3]);
    assert_eq!(shape.row_column_from(&forbidden, 1, 0), (1, 1));
    assert_eq!(shape.row_column_from(&forbidden, 2, 1), (2, 3));
    assert_eq!(shape.row_column_from(&forbidden, 7, 5), (1, 3));
}

#[test]
fn score_predictions_counts() {
    let predictions =
        vec!["a".to_owned(), String::new(), "b".to_owned(), "a".to_owned(), String::new()];
    let expected =
        vec!["a".to_owned(), String::new(), "a".to_owned(), "a".to_owned(), "b".to_owned()];
    let (correct, total) = score_predictions(&predictions, &expected);
    assert_eq!(total, 3);
    assert_eq!(correct, 2);
}

fn leaf(row: usize, col: usize) -> WeightedShape {
    WeightedShape { weight_bits: 0, node: NodeShape::DataValue(row, col) }
}

fn sample_shape() -> WeightedShape {
    // a unary node over a leaf, and a binary node over a leaf and a
    // constant, joined by a binary root: six nodes in all
    let w4 = WeightedShape { weight_bits: 0, node: NodeShape::Unary(0, Box::new(leaf(0, 0))) };
    let w3 = WeightedShape { weight_bits: 0, node: NodeShape::Constant(0) };
    let w5 = WeightedShape {
        weight_bits: 0,
        node: NodeShape::Binary(2, Box::new(leaf(0, 1)), Box::new(w3)),
    };
    WeightedShape { weight_bits: 0, node: NodeShape::Binary(3, Box::new(w4), Box::new(w5)) }
}

#[test]
fn count_nodes() {
    assert_eq!(node_count(&sample_shape()), 6);
    assert_eq!(node_count(&leaf(1, 2)), 1);
}

#[test]
fn take_node_walks_preorder() {
    // preorder: root, unary, its leaf, right binary, its leaf, constant
    assert!(matches!(take_node(sample_shape(), 0).node, NodeShape::Binary(3, _, _)));
    assert!(matches!(take_node(sample_shape(), 1).node, NodeShape::Unary(0, _)));
    assert!(matches!(take_node(sample_shape(), 2).node, NodeShape::DataValue(0, 0)));
    assert!(matches!(take_node(sample_shape(), 3).node, NodeShape::Binary(2, _, _)));
    assert!(matches!(take_node(sample_shape(), 4).node, NodeShape::DataValue(0, 1)));
    assert!(matches!(take_node(sample_shape(), 5).node, NodeShape::Constant(0)));
}
