use swipe_engine::{dtw_distance, dtw_distance_fast, dtw_fast, get_keyboard_layout, get_word_path, Point};

fn pt(x: i32, y: i32) -> Point {
    Point { x, y }
}

#[test]
fn dtw_single_points() {
    assert_eq!(dtw_distance_fast(&[pt(0, 0)], &[pt(3000, 4000)], 10, None), Some(5000));
    assert_eq!(dtw_distance(&[pt(0, 0)], &[pt(3000, 4000)]), Some(5000));
}

#[test]
fn dtw_empty_is_infinite() {
    assert_eq!(dtw_distance_fast(&[], &[pt(0, 0)], 10, None), None);
    assert_eq!(dtw_distance_fast(&[pt(0, 0)], &[], 10, None), None);
    assert_eq!(dtw_distance(&[], &[]), None);
}

#[test]
fn dtw_identical_paths_are_at_zero() {
    let layout = get_keyboard_layout();
    let p = get_word_path("keyboard", &layout);
    assert_eq!(dtw_distance_fast(&p, &p, 0, None), Some(0));
    assert_eq!(dtw_distance_fast(&p, &p, 10, None), Some(0));
    assert_eq!(dtw_distance(&p, &p), Some(0));
}

#[test]
fn dtw_is_symmetric() {
    let layout = get_keyboard_layout();
    let a = get_word_path("hello", &layout);
    let b = get_word_path("help", &layout);
    let ab = dtw_distance_fast(&a, &b, 10, None);
    assert!(ab.is_some());
    assert_eq!(ab, dtw_distance_fast(&b, &a, 10, None));
    assert_eq!(dtw_distance(&a, &b), dtw_distance(&b, &a));
}

#[test]
fn dtw_band_too_narrow_is_infinite() {
    let s = vec![pt(0, 0)];
    let t = vec![pt(0, 0), pt(0, 0), pt(0, 0), pt(0, 0), pt(0, 0)];
    assert_eq!(dtw_distance_fast(&s, &t, 3, None), None);
    assert_eq!(dtw_distance_fast(&t, &s, 3, None), None);
    assert_eq!(dtw_distance_fast(&s, &t, 4, None), Some(0));
}

#[test]
fn dtw_two_by_two_values() {
    let s = vec![pt(0, 0), pt(0, 0)];
    let t = vec![pt(3000, 4000), pt(3000, 4000)];
    assert_eq!(dtw_distance_fast(&s, &t, 10, None), Some(10000));
    assert_eq!(dtw_fast(&s, &t, 0, None), Some(10000));
}

#[test]
fn dtw_cutoff_only_prunes() {
    let s = vec![pt(0, 0), pt(0, 0)];
    let t = vec![pt(3000, 4000), pt(3000, 4000)];
    assert_eq!(dtw_distance_fast(&s, &t, 10, Some(10000)), Some(10000));
    assert_eq!(dtw_distance_fast(&s, &t, 10, Some(20000)), Some(10000));
    // The first row's least cell is 5000, the second row's 10000.
    assert_eq!(dtw_distance_fast(&s, &t, 10, Some(9999)), None);
    assert_eq!(dtw_distance_fast(&s, &t, 10, Some(4999)), None);
    assert_eq!(dtw_distance_fast(&s, &t, 10, Some(0)), None);
}

#[test]
fn dtw_cutoff_prunes_by_rows_of_the_first_path() {
    // Rows follow the first path, so a cutoff can prune one order and not
    // the other; without a cutoff both orders agree.
    let s = vec![pt(0, 0), pt(1000, 0)];
    let t = vec![pt(0, 0)];
    assert_eq!(dtw_distance_fast(&s, &t, 10, Some(0)), None);
    assert_eq!(dtw_distance_fast(&t, &s, 10, Some(0)), Some(1000));
    assert_eq!(dtw_distance_fast(&s, &t, 10, None), Some(1000));
    assert_eq!(dtw_distance_fast(&t, &s, 10, None), Some(1000));
}
