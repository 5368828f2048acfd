use ds_heightmap::extent::Extent;
use ds_heightmap::sizing::side_for;

#[test]
fn side_keeps_a_padded_value() {
    assert_eq!(side_for(2), 2);
    assert_eq!(side_for(3), 3);
    assert_eq!(side_for(5), 5);
    assert_eq!(side_for(129), 129);
    assert_eq!(side_for(1025), 1025);
}

#[test]
fn side_rounds_up_to_next_padded_value() {
    assert_eq!(side_for(4), 5);
    assert_eq!(side_for(6), 9);
    assert_eq!(side_for(100), 129);
    assert_eq!(side_for(130), 257);
    assert_eq!(side_for(1000), 1025);
}

#[test]
fn side_is_least_padded_for_small_dimensions() {
    for w in 2..=300usize {
        for h in 2..=40usize {
            let m = w.max(h);
            let s = side_for(m);
            assert!(s >= m);
            assert!((s - 1).is_power_of_two());
            assert!((s - 1) / 2 + 1 < m || s == 2);
        }
    }
}

#[test]
fn default_extent() {
    let e = Extent::new();
    assert_eq!(e.width(), 129);
    assert_eq!(e.height(), 129);
    assert_eq!(e.side(), 129);
}

#[test]
fn set_width_twice_changes_nothing_more() {
    let mut e = Extent::new();
    assert!(e.set_width(200));
    assert_eq!((e.width(), e.height(), e.side()), (200, 129, 257));
    assert!(!e.set_width(200));
    assert_eq!((e.width(), e.height(), e.side()), (200, 129, 257));
}

#[test]
fn invalid_width_and_height_are_ignored() {
    let mut e = Extent::new();
    for bad in [0usize, 1] {
        assert!(!e.set_width(bad));
        assert!(!e.set_height(bad));
        assert_eq!((e.width(), e.height(), e.side()), (129, 129, 129));
    }
}

#[test]
fn five_by_five_has_side_five() {
    let mut e = Extent::new();
    assert!(!e.set_width(5));
    assert!(e.set_height(5));
    assert_eq!((e.width(), e.height(), e.side()), (5, 5, 5));
}

#[test]
fn three_by_five_has_side_five() {
    let mut e = Extent::new();
    e.set_width(3);
    e.set_height(5);
    assert_eq!((e.width(), e.height(), e.side()), (3, 5, 5));
}

#[test]
fn side_follows_the_larger_dimension_when_shrinking() {
    let mut e = Extent::new();
    e.set_width(300);
    assert_eq!(e.side(), 513);
    assert!(e.set_width(3));
    assert_eq!(e.side(), 129);
    assert!(!e.set_width(129));
    assert_eq!(e.side(), 129);
}

#[test]
fn corners_of_padded_grid() {
    let mut e = Extent::new();
    e.set_width(9);
    e.set_height(6);
    assert_eq!(e.side(), 9);
    assert_eq!(e.corners(), vec![(0, 0), (0, 8), (8, 0), (8, 8)]);
}

#[test]
fn window_excludes_padding() {
    let mut e = Extent::new();
    e.set_width(3);
    e.set_height(5);
    assert!(e.in_window(0, 0));
    assert!(e.in_window(2, 4));
    assert!(!e.in_window(3, 0));
    assert!(!e.in_window(4, 4));
    assert!(!e.in_window(0, 5));
}
