use text_input::handler::TextInputHandler;

fn merge(mut v: Vec<(usize, usize)>) -> Vec<(usize, usize)> {
    TextInputHandler::merge_groups(&mut v);
    v
}

#[test]
fn merge_fuses_touching_and_overlapping() {
    assert_eq!(merge(vec![(2, 4), (0, 2)]), vec![(0, 4)]);
    assert_eq!(merge(vec![(0, 5), (3, 8), (10, 12)]), vec![(0, 8), (10, 12)]);
    assert_eq!(merge(vec![(0, 2), (3, 4)]), vec![(0, 2), (3, 4)]);
}

#[test]
fn merge_drops_contained_and_duplicates() {
    assert_eq!(merge(vec![(2, 3), (0, 10), (2, 3)]), vec![(0, 10)]);
    assert_eq!(merge(vec![(5, 5), (5, 7)]), vec![(5, 7)]);
    assert_eq!(merge(vec![(4, 4)]), vec![(4, 4)]);
    assert_eq!(merge(vec![]), vec![]);
}

#[test]
fn merge_ignores_order() {
    let a = vec![(7, 9), (0, 3), (2, 5), (12, 12), (9, 10)];
    let expected = merge(a.clone());
    assert_eq!(expected, vec![(0, 5), (7, 10), (12, 12)]);
    let mut b = a.clone();
    b.reverse();
    assert_eq!(merge(b), expected);
    let mut c = a.clone();
    c.rotate_left(2);
    assert_eq!(merge(c), expected);
}

#[test]
fn merge_is_idempotent() {
    let once = merge(vec![(3, 6), (1, 2), (6, 7), (9, 9)]);
    assert_eq!(merge(once.clone()), once);
}
