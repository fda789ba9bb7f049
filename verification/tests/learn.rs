use rustlibraries::learn::{confusion_matrix, correct_count, inferred_labels, LearnRustError};

#[test]
fn metrics_match_sklearn_style_label_order() {
    let y_true = vec![2, 2, 1, 0, 1];
    let y_pred = vec![2, 1, 1, 0, 0];
    let labels = inferred_labels(&y_true, &y_pred);
    assert_eq!(labels, vec![0, 1, 2]);
    let accuracy = correct_count(&y_true, &y_pred).unwrap() as f64 / y_true.len() as f64;
    assert_eq!(accuracy, 0.6);
    assert_eq!(
        confusion_matrix(&y_true, &y_pred, &labels).unwrap(),
        vec![1, 0, 0, 1, 1, 0, 0, 1, 1]
    );
}

#[test]
fn confusion_matrix_errors_and_unknown_labels() {
    assert_eq!(
        confusion_matrix(&[1, 2], &[1], &[1]).unwrap_err(),
        LearnRustError::ShapeMismatch { expected: 2, actual: 1 }
    );
    assert_eq!(confusion_matrix(&[1], &[1], &[]).unwrap_err(), LearnRustError::EmptyInput);
    // pairs with a label outside the list are skipped; a repeated label keeps its last position
    assert_eq!(confusion_matrix(&[5, 7, 5], &[5, 5, 9], &[5, 7, 5]).unwrap(), vec![0, 0, 0, 0, 0, 1, 0, 0, 1]);
}

#[test]
fn inferred_labels_are_sorted_and_distinct() {
    assert_eq!(inferred_labels(&[3, -1, 3], &[7, -1, 0]), vec![-1, 0, 3, 7]);
    assert_eq!(inferred_labels(&[], &[]), Vec::<i64>::new());
}

#[test]
fn correct_count_counts_agreements() {
    assert_eq!(correct_count(&[1, 2, 3], &[1, 0, 3]), Ok(2));
    assert_eq!(correct_count(&[], &[]), Err(LearnRustError::EmptyInput));
    assert_eq!(correct_count(&[1], &[]), Err(LearnRustError::ShapeMismatch { expected: 1, actual: 0 }));
}

#[test]
fn learn_error_messages() {
    assert_eq!(LearnRustError::ShapeMismatch { expected: 3, actual: 12 }.message(), "shape mismatch: expected 3, got 12");
    assert_eq!(LearnRustError::EmptyInput.message(), "input must not be empty");
    assert_eq!(LearnRustError::InvalidShape("shape [1, 2] overflows".to_string()).message(), "shape [1, 2] overflows");
    assert_eq!(LearnRustError::NotFitted.message(), "model has not been fitted");
}
