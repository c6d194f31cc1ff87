use swag::SWAg;

#[test]
fn fold_all_works() {
    let mut swag = SWAg::<i32, _>::new(|x, y| x + y);
    swag.push_back(3);
    swag.push_back(4);
    swag.push_back(1);
    assert_eq!(swag.fold_all(), Some(8));
}

#[test]
fn fold_all_not_commutative_works() {
    let mut swag = SWAg::<(i32, i32), _>::new(|(x, b), (y, c)| (c * x + y, b * c));
    swag.push_back((3, 10));
    swag.push_back((4, 10));
    swag.push_back((1, 10));
    assert_eq!(swag.fold_all(), Some((341, 1000)));
}

#[test]
fn fold_all_with_pop_front_works() {
    let mut swag = SWAg::<(i32, i32), _>::new(|(x, b), (y, c)| (c * x + y, b * c));
    swag.push_back((3, 10));
    swag.push_back((4, 10));
    swag.push_back((5, 10));
    swag.push_back((6, 10));
    assert_eq!(swag.pop_front(), Some((3, 10))); // 4 5 6 |
    swag.push_back((1, 10)); // 4 5 6 | 1
    assert_eq!(swag.fold_all(), Some((4561, 10000)));
}

#[test]
fn fresh_window_reports_empty() {
    let mut swag = SWAg::<i32, _>::new(|x, y| x + y);
    assert_eq!(swag.fold_all(), None);
    assert_eq!(swag.pop_front(), None);
}

#[test]
fn drained_window_reports_empty_again() {
    let mut swag = SWAg::<i32, _>::new(|x, y| x + y);
    swag.push_back(5);
    swag.push_back(7);
    assert_eq!(swag.pop_front(), Some(5));
    assert_eq!(swag.pop_front(), Some(7));
    assert_eq!(swag.fold_all(), None);
    assert_eq!(swag.pop_front(), None);
}

#[test]
fn single_value_window() {
    let mut swag = SWAg::<i32, _>::new(|x, y| x + y);
    swag.push_back(42);
    assert_eq!(swag.fold_all(), Some(42));
    assert_eq!(swag.pop_front(), Some(42));
    assert_eq!(swag.fold_all(), None);
}

#[test]
fn back_eviction_keeps_aggregate_in_step() {
    // Digit concatenation in base 10: strongly order-sensitive, so a stale
    // back-aggregate entry after an eviction from the back buffer would show.
    let mut swag = SWAg::<(i32, i32), _>::new(|(x, b), (y, c)| (c * x + y, b * c));
    swag.push_back((1, 10));
    swag.push_back((2, 10));
    swag.push_back((3, 10));
    assert_eq!(swag.pop_front(), Some((1, 10))); // rebalances, back holds 2 3
    assert_eq!(swag.pop_front(), Some((2, 10))); // pops the back pair only
    assert_eq!(swag.fold_all(), Some((3, 10)));
    swag.push_back((4, 10));
    assert_eq!(swag.fold_all(), Some((34, 100)));
}

#[test]
fn evict_then_append_folds_remaining_then_new() {
    let mut swag = SWAg::<(i32, i32), _>::new(|(x, b), (y, c)| (c * x + y, b * c));
    swag.push_back((3, 10));
    swag.push_back((4, 10));
    swag.push_back((5, 10));
    swag.push_back((6, 10));
    assert_eq!(swag.pop_front(), Some((3, 10)));
    assert_eq!(swag.pop_front(), Some((4, 10)));
    swag.push_back((7, 10)); // window is now 5 6 | 7
    assert_eq!(swag.fold_all(), Some((567, 1000)));
}

#[test]
fn order_preserved_across_refills() {
    let mut swag = SWAg::<(i32, i32), _>::new(|(x, b), (y, c)| (c * x + y, b * c));
    swag.push_back((9, 10));
    assert_eq!(swag.pop_front(), Some((9, 10)));
    assert_eq!(swag.fold_all(), None);
    swag.push_back((1, 10));
    swag.push_back((2, 10));
    assert_eq!(swag.fold_all(), Some((12, 100)));
    assert_eq!(swag.pop_front(), Some((1, 10)));
    assert_eq!(swag.fold_all(), Some((2, 10)));
    assert_eq!(swag.pop_front(), Some((2, 10)));
    assert_eq!(swag.pop_front(), None);
}

#[test]
fn fold_all_is_left_to_right_fold_of_appends() {
    // Order preservation against an independently computed left fold.
    let values = [2, 7, 1, 8, 2, 8];
    let mut swag = SWAg::<(i64, i64), _>::new(|(x, b), (y, c)| (c * x + y, b * c));
    let mut expected: Option<(i64, i64)> = None;
    for v in values {
        swag.push_back((v, 10));
        expected = match expected {
            None => Some((v, 10)),
            Some((x, b)) => Some((10 * x + v, b * 10)),
        };
        assert_eq!(swag.fold_all(), expected);
    }
    assert_eq!(swag.fold_all(), Some((271828, 1000000)));
}
