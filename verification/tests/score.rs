use coderlm::score::{calculate_score, publish_score, RUST_FIXTURE_LABEL};

#[test]
fn calculates_score() {
    assert_eq!(calculate_score(&[2, 4]), 12);
}

#[test]
fn publishes_scores_with_their_sign() {
    assert_eq!(publish_score(&[2, 4]), "score:12");
    assert_eq!(publish_score(&[]), "score:0");
    assert_eq!(publish_score(&[-3, 1]), "score:-4");
    assert_eq!(publish_score(&[-1073741824]), "score:-2147483648");
}

#[test]
fn scores_of_lists_add_up() {
    let whole = calculate_score(&[1, -2, 3, 10]);
    assert_eq!(whole, calculate_score(&[1, -2]) + calculate_score(&[3, 10]));
    assert_eq!(whole, 24);
}

#[test]
fn label_is_fixed() {
    assert_eq!(RUST_FIXTURE_LABEL, "mixed-rust-target");
}
