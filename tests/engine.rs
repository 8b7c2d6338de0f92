use swipe_engine::{
    rank_candidates, Candidate, Dictionary, EngineError, Layout, Point, SwipeEngine, WordInfo,
};

fn info(log_freq: u32, count: u32) -> WordInfo {
    WordInfo { log_freq, count }
}

fn dictionary(entries: &[(&str, u32, u32)]) -> Dictionary {
    let mut d = Dictionary::empty();
    for (w, f, c) in entries {
        d.words.push(w.to_string());
        d.word_info.push((w.to_lowercase(), info(*f, *c)));
    }
    d
}

fn with_pairs(mut d: Dictionary, pairs: &[(&str, &str, u32)]) -> Dictionary {
    let mut table: Vec<(String, Vec<(String, u32)>)> = Vec::new();
    for (a, b, n) in pairs {
        match table.iter_mut().find(|(k, _)| k == a) {
            Some((_, succ)) => succ.push((b.to_string(), *n)),
            None => table.push((a.to_string(), vec![(b.to_string(), *n)])),
        }
    }
    d.pair_counts = Some(table);
    d
}

#[test]
fn lib_test_engine_creation() {
    let engine = SwipeEngine::new(Dictionary::empty(), None);
    assert_eq!(engine.word_count(), 0);
}

#[test]
fn test_dictionary_loading() {
    let mut engine = SwipeEngine::new(Dictionary::empty(), None);
    engine.load_dictionary(dictionary(&[("hello", 1000, 1000), ("world", 900, 500)]));
    assert_eq!(engine.word_count(), 2);
}

#[test]
fn lib_test_prediction() {
    let mut engine = SwipeEngine::new(Dictionary::empty(), None);
    engine.load_dictionary(dictionary(&[
        ("hello", 1000, 1000),
        ("hello", 1000, 1000),
        ("help", 960, 800),
        ("hell", 920, 600),
    ]));
    let predictions = engine.predict("hello", None, 5);
    assert!(!predictions.is_empty());
    assert!(predictions.iter().any(|p| p.word == "hello"));
}

#[test]
fn exact_trace_ranks_first() {
    let engine = SwipeEngine::new(
        dictionary(&[("help", 600, 500), ("hell", 300, 100), ("hello", 900, 1000)]),
        None,
    );
    for weight in [0, 250, 1000, 100_000] {
        let mut e = SwipeEngine::new(
            dictionary(&[("help", 600, 500), ("hell", 300, 100), ("hello", 900, 1000)]),
            None,
        );
        e.set_pop_weight(weight);
        let p = e.predict("hello", None, 5);
        assert_eq!(p[0].word, "hello");
        assert_eq!(p[0].score, 0);
        assert_eq!(p[0].freq, 900);
        assert_eq!(p[0].bigram_prob, None);
    }
    let p = engine.predict("hello", None, 5);
    assert_eq!(p[0].word, "hello");
}

#[test]
fn only_words_with_the_first_letter_are_candidates() {
    let engine = SwipeEngine::new(dictionary(&[("jello", 900, 10), ("hello", 100, 10)]), None);
    let p = engine.predict("jello", None, 5);
    assert!(p.iter().all(|x| x.word == "jello"));
    assert_eq!(p.len(), 1);
    assert!(engine.predict("xylophone", None, 5).is_empty());
}

#[test]
fn first_letter_is_case_folded() {
    let engine = SwipeEngine::new(dictionary(&[("Hello", 900, 10)]), None);
    let p = engine.predict("HELLO", None, 5);
    assert_eq!(p.len(), 1);
    assert_eq!(p[0].word, "Hello");
    assert_eq!(p[0].score, 0);
    assert_eq!(p[0].freq, 900);
}

#[test]
fn continuation_probability_is_reported() {
    let d = with_pairs(dictionary(&[("go", 500, 10), ("to", 800, 40)]), &[("to", "go", 8)]);
    let engine = SwipeEngine::new(d, None);
    let p = engine.predict("go", Some("to"), 5);
    assert_eq!(p[0].word, "go");
    assert_eq!(p[0].bigram_prob, Some(800));
    let p = engine.predict("go", None, 5);
    assert_eq!(p[0].word, "go");
    assert_eq!(p[0].bigram_prob, None);
}

#[test]
fn previous_word_is_lowercased() {
    let d = with_pairs(dictionary(&[("Go", 500, 10)]), &[("to", "go", 8)]);
    let engine = SwipeEngine::new(d, None);
    let p = engine.predict("go", Some("TO"), 5);
    assert_eq!(p[0].word, "Go");
    assert_eq!(p[0].freq, 500);
    assert_eq!(p[0].bigram_prob, Some(800));
    let p = engine.predict("go", Some("from"), 5);
    assert_eq!(p[0].bigram_prob, None);
}

#[test]
fn no_pair_table_means_no_probability() {
    let engine = SwipeEngine::new(dictionary(&[("go", 500, 10)]), None);
    let p = engine.predict("go", Some("to"), 5);
    assert_eq!(p[0].bigram_prob, None);
}

#[test]
fn unknown_word_has_zero_frequency() {
    let mut d = Dictionary::empty();
    d.words.push("go".to_string());
    let engine = SwipeEngine::new(d, None);
    let p = engine.predict("go", None, 5);
    assert_eq!(p.len(), 1);
    assert_eq!(p[0].freq, 0);
}

#[test]
fn empty_and_unmappable_input_give_nothing() {
    let engine = SwipeEngine::new(dictionary(&[("go", 500, 10)]), None);
    assert!(engine.predict("", None, 5).is_empty());
    assert!(engine.predict("123 !?", None, 5).is_empty());
    assert!(engine.predict("", Some("to"), 5).is_empty());
}

#[test]
fn limit_zero_gives_nothing() {
    let engine = SwipeEngine::new(dictionary(&[("go", 500, 10), ("got", 400, 10)]), None);
    assert!(!engine.predict("go", None, 5).is_empty());
    assert!(engine.predict("go", None, 0).is_empty());
}

#[test]
fn limit_truncates() {
    let engine = SwipeEngine::new(
        dictionary(&[("af", 0, 1), ("ad", 0, 1), ("as", 0, 1), ("aa", 0, 1)]),
        None,
    );
    let all = engine.predict("aa", None, 10);
    let two = engine.predict("aa", None, 2);
    assert_eq!(all.len(), 4);
    assert_eq!(all[0].word, "aa");
    assert_eq!(all[1].word, "as");
    assert_eq!(two.len(), 2);
    assert_eq!(two[0].word, all[0].word);
    assert_eq!(two[1].word, all[1].word);
}

#[test]
fn end_penalty_uses_distance_between_last_keys() {
    // One candidate only, so the cutoff never applies: "qw" against "qe".
    let engine = SwipeEngine::new(dictionary(&[("qe", 0, 1)]), None);
    let p = engine.predict("qw", None, 5);
    assert_eq!(p.len(), 1);
    // Paths (0,0),(500,0),(1000,0) and (0,0),(500,0),(1000,0),(1500,0),(2000,0):
    // warping cost 1500, end penalty 5 * 1000, over 3 points.
    assert_eq!(p[0].score, (1500 + 5000) / 3);
}

#[test]
fn unknown_last_key_gets_fixed_penalty() {
    let engine = SwipeEngine::new(dictionary(&[("q1", 0, 1)]), None);
    let p = engine.predict("q", None, 5);
    assert_eq!(p.len(), 1);
    assert_eq!(p[0].score, 50_000);
}

#[test]
fn custom_layout_drives_prediction() {
    let layout = Layout {
        keys: vec![('a', Point { x: 0, y: 0 }), ('b', Point { x: 400, y: 0 })],
    };
    let engine = SwipeEngine::new(dictionary(&[("ab", 0, 1), ("aa", 0, 1)]), Some(layout));
    let p = engine.predict("ab", None, 5);
    assert_eq!(p[0].word, "ab");
    assert_eq!(p[0].score, 0);
}

fn cand(index: usize, score: u128, freq: u32) -> Candidate {
    Candidate { index, score, freq, bigram: 0 }
}

#[test]
fn ranking_is_stable_and_by_key() {
    let c = vec![cand(0, 300, 0), cand(1, 100, 0), cand(2, 300, 0), cand(3, 200, 0)];
    let r = rank_candidates(&c, 250, 500);
    let order: Vec<usize> = r.iter().map(|x| x.index).collect();
    assert_eq!(order, vec![1, 3, 0, 2]);
}

#[test]
fn more_pop_weight_never_demotes_frequent_word() {
    let rare = cand(0, 100, 0);
    let common = cand(1, 150, 500);
    let c = vec![rare, common];
    let mut last_pos = usize::MAX;
    for w in [-1000i32, 0, 50, 100, 101, 200, 1000] {
        let r = rank_candidates(&c, w, 0);
        let pos = r.iter().position(|x| x.index == 1).unwrap();
        assert!(pos <= last_pos);
        last_pos = pos;
    }
    assert_eq!(rank_candidates(&c, 0, 0)[0].index, 0);
    assert_eq!(rank_candidates(&c, 1000, 0)[0].index, 1);
}

#[test]
fn bigram_weight_promotes_likely_continuation() {
    let a = Candidate { index: 0, score: 100, freq: 0, bigram: 0 };
    let b = Candidate { index: 1, score: 120, freq: 0, bigram: 800 };
    assert_eq!(rank_candidates(&vec![a, b], 0, 0)[0].index, 0);
    assert_eq!(rank_candidates(&vec![a, b], 0, 500)[0].index, 1);
}

#[test]
fn construction_reports_unavailable_dictionary() {
    let failed = SwipeEngine::try_new(Err("no such language".to_string()), None);
    match failed {
        Err(EngineError::DictionaryUnavailable(why)) => assert_eq!(why, "no such language"),
        Ok(_) => panic!("an engine was built without a dictionary"),
    }
    let err = SwipeEngine::try_new(Err("missing".to_string()), None).err().unwrap();
    assert_eq!(err.message(), "missing");
    let built = SwipeEngine::try_new(Ok(dictionary(&[("go", 500, 10)])), None).ok().unwrap();
    assert_eq!(built.word_count(), 1);
    assert_eq!(built.predict("go", None, 1)[0].word, "go");
}

#[test]
fn negative_pop_weight_favours_rare_words() {
    let rare = cand(0, 150, 0);
    let common = cand(1, 100, 500);
    assert_eq!(rank_candidates(&vec![rare, common], 0, 0)[0].index, 1);
    // Key of the common word: 100 * 1000 + 500 * 200 = 200000 > 150000.
    assert_eq!(rank_candidates(&vec![rare, common], -200, 0)[0].index, 0);
}

#[test]
fn word_last_letter_is_lowered_by_unicode_rules() {
    // The word ends in a capital E acute, the gesture in a small one; the
    // letters match, so no end penalty applies although neither has a key.
    let engine = SwipeEngine::new(dictionary(&[("q\u{c9}", 0, 1)]), None);
    let p = engine.predict("q\u{e9}", None, 5);
    assert_eq!(p.len(), 1);
    assert_eq!(p[0].score, 0);
}

#[test]
fn word_last_letter_capital_ascii() {
    let engine = SwipeEngine::new(dictionary(&[("qW", 0, 1)]), None);
    let p = engine.predict("qw", None, 5);
    assert_eq!(p.len(), 1);
    assert_eq!(p[0].score, 0);
}
