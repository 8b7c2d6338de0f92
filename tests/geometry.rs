use swipe_engine::{
    euclidean_dist, get_keyboard_layout, get_word_path, simplify_path, Layout, Point,
};

fn pt(x: i32, y: i32) -> Point {
    Point { x, y }
}

#[test]
fn qwerty_rows_are_offset() {
    let layout = get_keyboard_layout();
    assert_eq!(layout.keys.len(), 26);
    assert_eq!(layout.get('q'), Some(pt(0, 0)));
    assert_eq!(layout.get('p'), Some(pt(9000, 0)));
    assert_eq!(layout.get('a'), Some(pt(500, 1000)));
    assert_eq!(layout.get('l'), Some(pt(8500, 1000)));
    assert_eq!(layout.get('z'), Some(pt(1500, 2000)));
    assert_eq!(layout.get('m'), Some(pt(7500, 2000)));
    assert_eq!(layout.get('Q'), None);
    assert_eq!(layout.get('1'), None);
}

#[test]
fn distance_is_rounded_down() {
    assert_eq!(euclidean_dist(&pt(0, 0), &pt(3000, 4000)), 5000);
    assert_eq!(euclidean_dist(&pt(3000, 4000), &pt(0, 0)), 5000);
    assert_eq!(euclidean_dist(&pt(0, 0), &pt(1, 1)), 1);
    assert_eq!(euclidean_dist(&pt(5, 5), &pt(5, 5)), 0);
    assert_eq!(euclidean_dist(&pt(i32::MIN, i32::MIN), &pt(i32::MAX, i32::MAX)), 6074000998);
}

#[test]
fn word_path_interpolates_long_strokes() {
    let layout = get_keyboard_layout();
    assert_eq!(get_word_path("qw", &layout), vec![pt(0, 0), pt(500, 0), pt(1000, 0)]);
    assert_eq!(get_word_path("wq", &layout), vec![pt(1000, 0), pt(500, 0), pt(0, 0)]);
    // 1.118 keys apart: three pieces, each under half a key.
    assert_eq!(
        get_word_path("qa", &layout),
        vec![pt(0, 0), pt(166, 333), pt(333, 666), pt(500, 1000)]
    );
    let qp = get_word_path("qp", &layout);
    assert_eq!(qp.len(), 19);
    assert_eq!(qp[1], pt(500, 0));
    assert_eq!(qp[18], pt(9000, 0));
}

#[test]
fn word_path_folds_case_and_skips_unknown() {
    let layout = get_keyboard_layout();
    assert_eq!(get_word_path("Q", &layout), vec![pt(0, 0)]);
    assert_eq!(get_word_path("q!q", &layout), vec![pt(0, 0), pt(0, 0)]);
    assert!(get_word_path("", &layout).is_empty());
    assert!(get_word_path("123 !", &layout).is_empty());
}

#[test]
fn word_path_starts_on_first_key() {
    let layout = get_keyboard_layout();
    for w in ["hello", "Zebra", "q", "mnbvcxz", "typewriter"] {
        let path = get_word_path(w, &layout);
        assert!(!path.is_empty());
        let first = w.chars().next().unwrap().to_ascii_lowercase();
        assert_eq!(path[0], layout.get(first).unwrap());
    }
}

#[test]
fn word_path_gaps_stay_within_half_a_key() {
    let layout = get_keyboard_layout();
    for w in ["qa", "qm", "pz", "hello", "mnbvcxzasdfghjklpoiuytrewq", "aq", "zp"] {
        let path = get_word_path(w, &layout);
        for i in 1..path.len() {
            assert!(euclidean_dist(&path[i - 1], &path[i]) <= 503, "{w}: gap at {i}");
        }
    }
    let wide = Layout { keys: vec![('a', pt(0, 0)), ('b', pt(900, 0))] };
    assert_eq!(get_word_path("ab", &wide), vec![pt(0, 0), pt(450, 0), pt(900, 0)]);
}

#[test]
fn custom_layout_is_used() {
    let layout = Layout { keys: vec![('a', pt(0, 0)), ('b', pt(100, 0))] };
    assert_eq!(get_word_path("ab", &layout), vec![pt(0, 0), pt(100, 0)]);
    assert_eq!(get_word_path("abc", &layout), vec![pt(0, 0), pt(100, 0)]);
}

#[test]
fn simplify_merges_close_points() {
    let p = vec![pt(0, 0), pt(5, 5), pt(10, 0), pt(11, 0), pt(30, 0), pt(30, 0)];
    assert_eq!(simplify_path(&p), vec![pt(0, 0), pt(11, 0), pt(30, 0)]);
    assert!(simplify_path(&[]).is_empty());
    assert_eq!(simplify_path(&[pt(7, 7)]), vec![pt(7, 7)]);
}

#[test]
fn simplify_is_idempotent() {
    let layout = get_keyboard_layout();
    for w in ["hello", "aaaa", "qwertyuiop", "look"] {
        let once = simplify_path(&get_word_path(w, &layout));
        let twice = simplify_path(&once);
        assert_eq!(once, twice);
    }
    let repeated = simplify_path(&get_word_path("aaaa", &layout));
    assert_eq!(repeated, vec![pt(500, 1000)]);
}
