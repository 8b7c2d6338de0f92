//! The prediction engine: a first-letter index and precomputed word paths
//! over a dictionary, and the ranking of candidates for a gesture.
use vstd::prelude::*;
use crate::dictionary::{
    Dictionary, bigram_spec, lower_char, lower_char_of, lower_of, lowercase, strings_view,
};
use crate::ranking::{
    fits, lemma_pop_weight_favours_frequent, lemma_rank_contains, lemma_rank_fits, lemma_rank_from,
    lemma_rank_in_order, rank,
    rank_candidates, rank_key, Candidate, SCORE_BOUND,
};
use crate::dtw::{dtw_distance_fast, dtw_spec, lemma_dtw_self_zero, lemma_dtw_within_cutoff};
use crate::geometry::{
    chars_of, dist_spec, euclidean_dist, fold, fold_spec, get_keyboard_layout, get_word_path,
    qwerty_keys, simplify_path, simplify_spec, word_path_spec, Layout, Point,
};
use crate::table::{
    assoc, lemma_assoc_absent, lemma_assoc_first, lemma_assoc_push, lemma_assoc_update,
};

verus! {

/// Positions, among the first `k` words, of the non-empty words whose
/// case-folded first character is `c`, in increasing order.
pub open spec fn first_letter_indices(words: Seq<Seq<char>>, c: char, k: nat) -> Seq<usize>
    decreases k,
{
    if k == 0 {
        Seq::empty()
    } else {
        let pre = first_letter_indices(words, c, (k - 1) as nat);
        let w = words[k - 1];
        if w.len() > 0 && fold_spec(w[0]) == c {
            pre.push((k - 1) as usize)
        } else {
            pre
        }
    }
}

/// The index entry for `c` after the first `k` words: their positions, if
/// there are any.
pub open spec fn bucket(words: Seq<Seq<char>>, c: char, k: nat) -> Option<Seq<usize>> {
    let b = first_letter_indices(words, c, k);
    if b.len() > 0 {
        Some(b)
    } else {
        None
    }
}

/// The first-letter index, with each list of positions as a sequence.
pub open spec fn index_view(v: Seq<(char, Vec<usize>)>) -> Seq<(char, Seq<usize>)> {
    v.map_values(|e: (char, Vec<usize>)| (e.0, e.1@))
}

fn find_letter(v: &Vec<(char, Vec<usize>)>, c: char) -> (r: Option<usize>)
    ensures
        match r {
            Some(i) => i < v@.len() && v@[i as int].0 == c && forall|j: int|
                0 <= j < i ==> (#[trigger] v@[j]).0 != c,
            None => forall|j: int| 0 <= j < v@.len() ==> (#[trigger] v@[j]).0 != c,
        },
{
    let n = v.len();
    let mut i: usize = 0;
    while i < n
        invariant
            i <= n == v@.len(),
            forall|j: int| 0 <= j < i ==> (#[trigger] v@[j]).0 != c,
        decreases n - i,
    {
        if v[i].0 == c {
            return Some(i);
        }
        i = i + 1;
    }
    None
}

/// Each letter has at most one entry in the index.
pub open spec fn letters_distinct(v: Seq<(char, Vec<usize>)>) -> bool {
    forall|i: int, j: int| 0 <= i < j < v.len() ==> (#[trigger] v[i]).0 != (#[trigger] v[j]).0
}

/// Builds the first-letter index and the simplified path of every word.
fn build_index(words: &Vec<String>, layout: &Layout) -> (r: (Vec<(char, Vec<usize>)>, Vec<Vec<Point>>))
    ensures
        letters_distinct(r.0@),
        forall|c: char| #[trigger] assoc(index_view(r.0@), c) == bucket(strings_view(words@), c, words@.len()),
        r.1@.len() == words@.len(),
        forall|i: int| 0 <= i < words@.len() ==> (#[trigger] r.1@[i])@ == simplify_spec(word_path_spec(words@[i]@, layout.keys@)),
{
    let ghost ws = strings_view(words@);
    let n = words.len();
    let mut index: Vec<(char, Vec<usize>)> = Vec::new();
    let mut paths: Vec<Vec<Point>> = Vec::new();
    for idx in 0..n
        invariant
            n == words@.len() == ws.len(),
            ws == strings_view(words@),
            letters_distinct(index@),
            forall|c: char| #[trigger] assoc(index_view(index@), c) == bucket(ws, c, idx as nat),
            paths@.len() == idx,
            forall|i: int| 0 <= i < idx ==> (#[trigger] paths@[i])@ == simplify_spec(word_path_spec(words@[i]@, layout.keys@)),
    {
        let cs = chars_of(words[idx].as_str());
        assert(ws[idx as int] == words@[idx as int]@);
        if cs.len() > 0 {
            let c = fold(cs[0]);
            let ghost before = index_view(index@);
            match find_letter(&index, c) {
                Some(k) => {
                    let ghost old_b = index@[k as int].1@;
                    let ghost old_index = index@;
                    index[k].1.push(idx);
                    proof {
                        assert forall|i: int| 0 <= i < index@.len() implies (#[trigger] index@[i]).0 == old_index[i].0 by {}
                        assert(index_view(index@) =~= before.update(k as int, (c, old_b.push(idx))));
                        assert forall|c2: char| #[trigger] assoc(index_view(index@), c2) == bucket(ws, c2, (idx + 1) as nat) by {
                            assert forall|j: int| 0 <= j < k implies before[j].0 != before[k as int].0 by {
                                assert(before[j].0 == index@[j].0);
                            }
                            lemma_assoc_update(before, k as int, old_b.push(idx), c2);
                            lemma_assoc_first(before, c, k as int);
                        }
                    }
                },
                None => {
                    let ghost old_index = index@;
                    let mut fresh: Vec<usize> = Vec::new();
                    fresh.push(idx);
                    assert(fresh@ =~= seq![idx]);
                    index.push((c, fresh));
                    proof {
                        assert forall|i: int, j: int| 0 <= i < j < index@.len() implies (#[trigger] index@[i]).0 != (#[trigger] index@[j]).0 by {
                            if j == old_index.len() {
                                assert(old_index[i].0 != c);
                            } else {
                                assert(old_index[i] == index@[i] && old_index[j] == index@[j]);
                            }
                        }
                        assert(index_view(index@) =~= before.push((c, seq![idx])));
                        assert forall|c2: char| #[trigger] assoc(index_view(index@), c2) == bucket(ws, c2, (idx + 1) as nat) by {
                            assert forall|j: int| 0 <= j < before.len() implies before[j].0 != c by {
                                assert(before[j].0 == index@[j].0);
                            }
                            lemma_assoc_absent(before, c);
                            lemma_assoc_push(before, (c, seq![idx]), c2);
                            if c2 == c {
                                assert(first_letter_indices(ws, c, idx as nat).len() == 0);
                                assert(first_letter_indices(ws, c, (idx + 1) as nat) =~= seq![idx]);
                            }
                        }
                    }
                },
            }
        } else {
            assert forall|c2: char| #[trigger] assoc(index_view(index@), c2) == bucket(ws, c2, (idx + 1) as nat) by {}
        }
        let raw = get_word_path(words[idx].as_str(), layout);
        paths.push(simplify_path(&raw));
    }
    (index, paths)
}

/// Default weight of the word frequency in the ranking, in thousandths.
pub const DEFAULT_POP_WEIGHT: i32 = 250;

/// Default weight of the continuation probability, in thousandths.
pub const DEFAULT_BIGRAM_WEIGHT: i32 = 500;

/// Least half-width of the warping band.
pub const MIN_WINDOW: usize = 10;

/// End penalty per unit of distance between the two last keys.
pub const END_PENALTY_FACTOR: u128 = 5;

/// End penalty of a word whose last character has no key (fifty keys).
pub const UNKNOWN_END_PENALTY: u128 = 50_000;

/// The swipe prediction engine over one dictionary and one layout.
pub struct SwipeEngine {
    dictionary: Dictionary,
    layout: Layout,
    pop_weight: i32,
    bigram_weight: i32,
    by_first_letter: Vec<(char, Vec<usize>)>,
    word_paths: Vec<Vec<Point>>,
}

/// Why an engine could not be built.
#[derive(Debug)]
pub enum EngineError {
    /// The dictionary could not be supplied (unknown language, missing or
    /// undecodable artifact); the text says why.
    DictionaryUnavailable(String),
}

impl EngineError {
    /// A readable description of the failure.
    pub fn message(&self) -> (r: String)
        ensures
            r@ == (match self {
                EngineError::DictionaryUnavailable(why) => why@,
            }),
    {
        match self {
            EngineError::DictionaryUnavailable(why) => why.clone(),
        }
    }
}

/// One prediction: a dictionary word, its length-normalised path distance
/// (thousandths of a key per point; lower is better), its log frequency
/// and its continuation probability (thousandths), when not zero.
#[derive(Debug)]
pub struct Prediction {
    pub word: String,
    pub score: u128,
    pub freq: u32,
    pub bigram_prob: Option<u64>,
}

/// What a prediction call fixes before it walks the candidates.
pub struct Query {
    /// The simplified path of the gesture.
    pub path: Seq<Point>,
    /// The case-folded last character of the gesture.
    pub last: char,
    /// Its key position, or the origin.
    pub last_pt: Point,
    /// The lowercase previous word, if any.
    pub prev: Option<Seq<char>>,
}

/// Half-width of the warping band for a gesture path of `len` points.
pub open spec fn window_for(len: nat) -> nat {
    if len / 2 > MIN_WINDOW {
        len / 2
    } else {
        MIN_WINDOW as nat
    }
}

/// The penalty for a word that does not end where the gesture ends.
pub open spec fn end_penalty_spec(keys: Seq<(char, Point)>, q: Query, w: Seq<char>) -> nat {
    let wl = lower_char_of(w.last());
    if wl == q.last {
        0
    } else {
        match assoc(keys, wl) {
            Some(p) => (END_PENALTY_FACTOR * dist_spec(q.last_pt, p)) as nat,
            None => UNKNOWN_END_PENALTY as nat,
        }
    }
}

/// The DTW cutoff that the best score so far gives.
pub open spec fn cutoff_for(best: Option<u128>, len: nat) -> Option<u128> {
    match best {
        None => None,
        Some(b) => Some((b * len) as u128),
    }
}

/// The better of the best score so far and a new score.
pub open spec fn min_best(best: Option<u128>, score: u128) -> Option<u128> {
    match best {
        Some(b) => if b <= score { Some(b) } else { Some(score) },
        None => Some(score),
    }
}

impl SwipeEngine {
    pub closed spec fn dictionary_spec(&self) -> Dictionary {
        self.dictionary
    }

    pub closed spec fn keys(&self) -> Seq<(char, Point)> {
        self.layout.keys@
    }

    pub closed spec fn pop_weight_spec(&self) -> i32 {
        self.pop_weight
    }

    pub closed spec fn bigram_weight_spec(&self) -> i32 {
        self.bigram_weight
    }

    /// The dictionary words as character sequences.
    pub open spec fn words(&self) -> Seq<Seq<char>> {
        strings_view(self.dictionary_spec().words@)
    }

    /// The index and the word paths agree with the dictionary and layout.
    pub closed spec fn wf(&self) -> bool {
        &&& letters_distinct(self.by_first_letter@)
        &&& forall|c: char| #[trigger] assoc(index_view(self.by_first_letter@), c) == bucket(self.words(), c, self.words().len())
        &&& self.word_paths@.len() == self.words().len()
        &&& forall|i: int| 0 <= i < self.words().len() ==> (#[trigger] self.word_paths@[i])@ == simplify_spec(word_path_spec(self.words()[i], self.keys()))
    }

    /// What a surviving candidate records, or `None` where the distance
    /// computation gives up on it.
    pub open spec fn evaluate(&self, q: Query, idx: usize, best: Option<u128>) -> Option<Candidate> {
        let w = self.words()[idx as int];
        let len = q.path.len();
        let pen = end_penalty_spec(self.keys(), q, w);
        let wp = simplify_spec(word_path_spec(w, self.keys()));
        match dtw_spec(q.path, wp, window_for(len), cutoff_for(best, len)) {
            None => None,
            Some(d) => {
                let key = lower_of(w);
                let info = assoc(self.dictionary_spec().info_table(), key);
                Some(Candidate {
                    index: idx,
                    score: ((d as int + pen as int) / len as int) as u128,
                    freq: match info {
                        Some(i) => i.log_freq,
                        None => 0,
                    },
                    bigram: bigram_spec(self.dictionary_spec().pairs_table(), info, q.prev, key),
                })
            },
        }
    }

    /// The survivors among `cands`, evaluated in order with the best
    /// score so far as the cutoff, and the best score at the end.
    pub open spec fn scan(&self, q: Query, cands: Seq<usize>) -> (Seq<Candidate>, Option<u128>)
        decreases cands.len(),
    {
        if cands.len() == 0 {
            (Seq::empty(), None)
        } else {
            let (acc, best) = self.scan(q, cands.drop_last());
            match self.evaluate(q, cands.last(), best) {
                None => (acc, best),
                Some(c) => (acc.push(c), min_best(best, c.score)),
            }
        }
    }

    /// The ranked candidates that a prediction call reports.
    pub open spec fn predict_spec(&self, input: Seq<char>, prev: Option<Seq<char>>, limit: nat) -> Seq<Candidate> {
        let raw = word_path_spec(input, self.keys());
        if raw.len() == 0 || input.len() == 0 {
            Seq::empty()
        } else {
            let last = fold_spec(input.last());
            let q = Query {
                path: simplify_spec(raw),
                last,
                last_pt: match assoc(self.keys(), last) {
                    Some(p) => p,
                    None => Point { x: 0, y: 0 },
                },
                prev: match prev {
                    Some(p) => Some(lower_of(p)),
                    None => None,
                },
            };
            let cands = first_letter_indices(self.words(), fold_spec(input[0]), self.words().len());
            let ranked = rank(self.scan(q, cands).0, self.pop_weight_spec(), self.bigram_weight_spec());
            if limit < ranked.len() {
                ranked.take(limit as int)
            } else {
                ranked
            }
        }
    }
}

/// A prediction reports the candidate: the word at its position, its
/// score, its frequency, and its probability where it is not zero.
pub open spec fn reports(p: Prediction, c: Candidate, words: Seq<Seq<char>>) -> bool {
    &&& p.word@ == words[c.index as int]
    &&& p.score == c.score
    &&& p.freq == c.freq
    &&& p.bigram_prob == if c.bigram != 0 { Some(c.bigram) } else { None }
}


/// The query a call builds from its gesture path and its other inputs.
pub open spec fn query_of(path: Seq<Point>, last: char, last_pt: Point, prev: Option<&String>) -> Query {
    Query {
        path,
        last,
        last_pt,
        prev: match prev {
            Some(p) => Some(p@),
            None => None,
        },
    }
}

proof fn lemma_first_letter_indices(words: Seq<Seq<char>>, c: char, k: nat)
    requires
        k <= words.len() <= usize::MAX,
    ensures
        forall|i: int| 0 <= i < first_letter_indices(words, c, k).len() ==> {
            let x = #[trigger] first_letter_indices(words, c, k)[i];
            &&& x < k
            &&& words[x as int].len() > 0
            &&& fold_spec(words[x as int][0]) == c
        },
    decreases k,
{
    if k > 0 {
        lemma_first_letter_indices(words, c, (k - 1) as nat);
        let pre = first_letter_indices(words, c, (k - 1) as nat);
        let cur = first_letter_indices(words, c, k);
        assert forall|i: int| 0 <= i < cur.len() implies {
            let x = #[trigger] cur[i];
            &&& x < k
            &&& words[x as int].len() > 0
            &&& fold_spec(words[x as int][0]) == c
        } by {
            if i < pre.len() {
                assert(cur[i] == pre[i]);
            }
        }
    }
}

impl SwipeEngine {
    /// Scores one candidate word against the gesture path.
    fn evaluate_candidate(
        &self,
        path: &Vec<Point>,
        last: char,
        last_pt: Point,
        prev_key: Option<&String>,
        idx: usize,
        best: Option<u128>,
    ) -> (r: Option<Candidate>)
        requires
            self.wf(),
            idx < self.words().len(),
            self.words()[idx as int].len() > 0,
            path@.len() > 0,
            best matches Some(b) ==> b * path@.len() < SCORE_BOUND,
        ensures
            r == self.evaluate(query_of(path@, last, last_pt, prev_key), idx, best),
            r matches Some(c) ==> c.score * path@.len() < SCORE_BOUND && c.score < SCORE_BOUND,
    {
        let ghost q = query_of(path@, last, last_pt, prev_key);
        let len = path.len();
        let word = &self.dictionary.words[idx];
        assert(word@ == self.words()[idx as int]);
        let cs = chars_of(word.as_str());
        let wl = lower_char(cs[cs.len() - 1]);
        let pen: u128 = if wl == last {
            0
        } else {
            match self.layout.get(wl) {
                Some(p) => END_PENALTY_FACTOR * (euclidean_dist(&last_pt, &p) as u128),
                None => UNKNOWN_END_PENALTY,
            }
        };
        assert(pen == end_penalty_spec(self.keys(), q, word@));
        let half = len / 2;
        let window: usize = if half > MIN_WINDOW {
            half
        } else {
            MIN_WINDOW
        };
        let cutoff: Option<u128> = match best {
            Some(b) => Some(b * (len as u128)),
            None => None,
        };
        let wp = &self.word_paths[idx];
        let d = match dtw_distance_fast(path.as_slice(), wp.as_slice(), window, cutoff) {
            Some(d) => d,
            None => return None,
        };
        let total: u128 = d + pen;
        let score: u128 = total / (len as u128);
        assert(score * len <= total) by (nonlinear_arith)
            requires
                score as int == total as int / len as int,
                len > 0,
        ;
        assert(score <= score * len) by (nonlinear_arith)
            requires
                len >= 1,
        ;
        let key = lowercase(word.as_str());
        let (freq, bigram) = self.dictionary.frequency_signal(&key, prev_key);
        Some(Candidate { index: idx, score, freq, bigram })
    }

    /// Scores the candidates in order, each with the best score so far as
    /// its cutoff, and keeps the survivors.
    fn scan_candidates(
        &self,
        path: &Vec<Point>,
        last: char,
        last_pt: Point,
        prev_key: Option<&String>,
        bucket: &Vec<usize>,
    ) -> (r: Vec<Candidate>)
        requires
            self.wf(),
            path@.len() > 0,
            forall|i: int| 0 <= i < bucket@.len() ==> {
                let x = #[trigger] bucket@[i];
                &&& x < self.words().len()
                &&& self.words()[x as int].len() > 0
            },
        ensures
            r@ == self.scan(query_of(path@, last, last_pt, prev_key), bucket@).0,
            forall|i: int| 0 <= i < r@.len() ==> fits(#[trigger] r@[i], self.words().len()),
    {
        let ghost q = query_of(path@, last, last_pt, prev_key);
        let mut out: Vec<Candidate> = Vec::new();
        let mut best: Option<u128> = None;
        let n = bucket.len();
        for t in 0..n
            invariant
                n == bucket@.len(),
                self.wf(),
                path@.len() > 0,
                q == query_of(path@, last, last_pt, prev_key),
                forall|i: int| 0 <= i < bucket@.len() ==> {
                    let x = #[trigger] bucket@[i];
                    &&& x < self.words().len()
                    &&& self.words()[x as int].len() > 0
                },
                (out@, best) == self.scan(q, bucket@.take(t as int)),
                best matches Some(b) ==> b * path@.len() < SCORE_BOUND,
                forall|i: int| 0 <= i < out@.len() ==> fits(#[trigger] out@[i], self.words().len()),
        {
            assert(bucket@.take(t + 1).drop_last() =~= bucket@.take(t as int));
            let idx = bucket[t];
            assert(idx == bucket@[t as int]);
            match self.evaluate_candidate(path, last, last_pt, prev_key, idx, best) {
                Some(c) => {
                    out.push(c);
                    best = match best {
                        Some(b) => if b <= c.score {
                            Some(b)
                        } else {
                            Some(c.score)
                        },
                        None => Some(c.score),
                    };
                },
                None => {},
            }
        }
        assert(bucket@.take(n as int) =~= bucket@);
        out
    }
}


impl SwipeEngine {
    /// An engine over `dictionary`, with `layout` or else the QWERTY
    /// layout, the default weights, and its index built.
    pub fn new(dictionary: Dictionary, layout: Option<Layout>) -> (r: SwipeEngine)
        ensures
            r.wf(),
            r.dictionary_spec() == dictionary,
            r.keys() == (match layout {
                Some(l) => l.keys@,
                None => qwerty_keys(),
            }),
            r.pop_weight_spec() == DEFAULT_POP_WEIGHT,
            r.bigram_weight_spec() == DEFAULT_BIGRAM_WEIGHT,
    {
        let layout = match layout {
            Some(l) => l,
            None => get_keyboard_layout(),
        };
        let (by_first_letter, word_paths) = build_index(&dictionary.words, &layout);
        SwipeEngine {
            dictionary,
            layout,
            pop_weight: DEFAULT_POP_WEIGHT,
            bigram_weight: DEFAULT_BIGRAM_WEIGHT,
            by_first_letter,
            word_paths,
        }
    }

    /// An engine over the dictionary that its supplier handed over, or
    /// `DictionaryUnavailable` with the supplier's reason; never an engine
    /// over part of a dictionary.
    pub fn try_new(supplied: Result<Dictionary, String>, layout: Option<Layout>) -> (r: Result<SwipeEngine, EngineError>)
        ensures
            match supplied {
                Ok(d) => r matches Ok(e) && e.wf() && e.dictionary_spec() == d && e.keys() == (match layout {
                    Some(l) => l.keys@,
                    None => qwerty_keys(),
                }) && e.pop_weight_spec() == DEFAULT_POP_WEIGHT && e.bigram_weight_spec() == DEFAULT_BIGRAM_WEIGHT,
                Err(why) => r matches Err(EngineError::DictionaryUnavailable(w)) && w@ == why@,
            },
    {
        match supplied {
            Ok(d) => Ok(SwipeEngine::new(d, layout)),
            Err(why) => Err(EngineError::DictionaryUnavailable(why)),
        }
    }

    /// Replaces the dictionary and rebuilds the index over it.
    pub fn load_dictionary(&mut self, dictionary: Dictionary)
        ensures
            final(self).wf(),
            final(self).dictionary_spec() == dictionary,
            final(self).keys() == old(self).keys(),
            final(self).pop_weight_spec() == old(self).pop_weight_spec(),
            final(self).bigram_weight_spec() == old(self).bigram_weight_spec(),
    {
        let (by_first_letter, word_paths) = build_index(&dictionary.words, &self.layout);
        self.dictionary = dictionary;
        self.by_first_letter = by_first_letter;
        self.word_paths = word_paths;
    }

    /// Sets how strongly common words are favoured (thousandths).
    pub fn set_pop_weight(&mut self, weight: i32)
        ensures
            final(self).wf() == old(self).wf(),
            final(self).pop_weight_spec() == weight,
            final(self).bigram_weight_spec() == old(self).bigram_weight_spec(),
            final(self).dictionary_spec() == old(self).dictionary_spec(),
            final(self).keys() == old(self).keys(),
    {
        self.pop_weight = weight;
    }

    /// Sets how strongly likely continuations are favoured (thousandths).
    pub fn set_bigram_weight(&mut self, weight: i32)
        ensures
            final(self).wf() == old(self).wf(),
            final(self).bigram_weight_spec() == weight,
            final(self).pop_weight_spec() == old(self).pop_weight_spec(),
            final(self).dictionary_spec() == old(self).dictionary_spec(),
            final(self).keys() == old(self).keys(),
    {
        self.bigram_weight = weight;
    }

    /// The number of dictionary words.
    pub fn word_count(&self) -> (r: usize)
        ensures
            r == self.words().len(),
    {
        self.dictionary.words.len()
    }

    /// The predictions for a gesture given as the characters it passes
    /// over: the dictionary words that start with its first character and
    /// survive the distance cutoff, ranked, at most `limit` of them.
    pub fn predict(&self, swipe_input: &str, previous_word: Option<&str>, limit: usize) -> (r: Vec<Prediction>)
        requires
            self.wf(),
        ensures
            r@.len() == self.predict_spec(
                swipe_input@,
                match previous_word {
                    Some(p) => Some(p@),
                    None => None,
                },
                limit as nat,
            ).len(),
            forall|i: int| 0 <= i < r@.len() ==> reports(
                #[trigger] r@[i],
                self.predict_spec(
                    swipe_input@,
                    match previous_word {
                        Some(p) => Some(p@),
                        None => None,
                    },
                    limit as nat,
                )[i],
                self.words(),
            ),
    {
        let ghost prev = match previous_word {
            Some(p) => Some(p@),
            None => None,
        };
        let ghost spec = self.predict_spec(swipe_input@, prev, limit as nat);
        let raw = get_word_path(swipe_input, &self.layout);
        if raw.len() == 0 {
            return Vec::new();
        }
        let path = simplify_path(raw.as_slice());
        proof {
            crate::geometry::lemma_simplify_shape(raw@);
        }
        let cs = chars_of(swipe_input);
        if cs.len() == 0 {
            return Vec::new();
        }
        let first = fold(cs[0]);
        let last = fold(cs[cs.len() - 1]);
        let last_pt = match self.layout.get(last) {
            Some(p) => p,
            None => Point { x: 0, y: 0 },
        };
        let prev_key: Option<String> = match previous_word {
            Some(p) => Some(lowercase(p)),
            None => None,
        };
        let prev_ref: Option<&String> = match &prev_key {
            Some(p) => Some(p),
            None => None,
        };
        let ghost q = query_of(path@, last, last_pt, prev_ref);
        let ghost cands = first_letter_indices(self.words(), first, self.words().len());
        let nw = self.dictionary.words.len();
        proof {
            assert(self.words().len() == nw);
            lemma_first_letter_indices(self.words(), first, self.words().len());
        }
        let k = match find_letter(&self.by_first_letter, first) {
            Some(k) => k,
            None => {
                proof {
                    let iv = index_view(self.by_first_letter@);
                    assert forall|j: int| 0 <= j < iv.len() implies iv[j].0 != first by {
                        assert(iv[j].0 == self.by_first_letter@[j].0);
                    }
                    lemma_assoc_absent(iv, first);
                    assert(bucket(self.words(), first, self.words().len()) is None);
                    assert(cands.len() == 0);
                    assert(cands =~= Seq::<usize>::empty());
                    assert(rank(self.scan(q, cands).0, self.pop_weight, self.bigram_weight).len() == 0);
                }
                return Vec::new();
            },
        };
        let bucket_ref = &self.by_first_letter[k].1;
        proof {
            let iv = index_view(self.by_first_letter@);
            assert forall|j: int| 0 <= j < k implies iv[j].0 != first by {
                assert(iv[j].0 == self.by_first_letter@[j].0);
            }
            lemma_assoc_first(iv, first, k as int);
            assert(bucket_ref@ == cands);
        }
        let scanned = self.scan_candidates(&path, last, last_pt, prev_ref, bucket_ref);
        let ranked = rank_candidates(&scanned, self.pop_weight, self.bigram_weight);
        proof {
            lemma_rank_fits(scanned@, self.pop_weight, self.bigram_weight, self.words().len());
            assert(ranked@ == rank(self.scan(q, cands).0, self.pop_weight, self.bigram_weight));
        }
        let n: usize = if limit < ranked.len() {
            limit
        } else {
            ranked.len()
        };
        let mut out: Vec<Prediction> = Vec::new();
        for i in 0..n
            invariant
                n <= ranked@.len(),
                forall|j: int| 0 <= j < ranked@.len() ==> fits(#[trigger] ranked@[j], self.words().len()),
                self.dictionary.words@.len() == self.words().len(),
                out@.len() == i,
                forall|j: int| 0 <= j < i ==> reports(#[trigger] out@[j], ranked@[j], self.words()),
        {
            let c = ranked[i];
            assert(fits(ranked@[i as int], self.words().len()));
            let word = self.dictionary.words[c.index].clone();
            let bigram_prob = if c.bigram != 0 {
                Some(c.bigram)
            } else {
                None
            };
            out.push(Prediction { word, score: c.score, freq: c.freq, bigram_prob });
        }
        proof {
            assert(spec == (if limit < ranked@.len() { ranked@.take(limit as int) } else { ranked@ }));
        }
        out
    }
}


/// A gesture with no character on the layout (the empty one among them)
/// gets no predictions.
pub proof fn lemma_predict_no_signal(e: &SwipeEngine, input: Seq<char>, prev: Option<Seq<char>>, limit: nat)
    requires
        forall|i: int| 0 <= i < input.len() ==> (#[trigger] assoc(e.keys(), fold_spec(input[i]))) is None,
    ensures
        e.predict_spec(input, prev, limit).len() == 0,
{
    crate::geometry::lemma_word_path_unmapped(input, e.keys());
}

/// A limit of zero gives no predictions.
pub proof fn lemma_predict_limit_zero(e: &SwipeEngine, input: Seq<char>, prev: Option<Seq<char>>)
    ensures
        e.predict_spec(input, prev, 0).len() == 0,
{
}

/// The weights do not decide which candidates survive: the scan reads
/// neither of them.
pub proof fn lemma_survivors_ignore_weights(e1: &SwipeEngine, e2: &SwipeEngine, q: Query, cands: Seq<usize>)
    requires
        e1.dictionary_spec() == e2.dictionary_spec(),
        e1.keys() == e2.keys(),
    ensures
        e1.scan(q, cands) == e2.scan(q, cands),
    decreases cands.len(),
{
    if cands.len() > 0 {
        lemma_survivors_ignore_weights(e1, e2, q, cands.drop_last());
    }
}


/// Raising the frequency weight never moves a word behind a less frequent
/// word: if `a` comes before `b` among the predictions, and is the more
/// frequent, then with a larger weight, wherever both appear among the
/// predictions, `a` still comes first.
pub proof fn lemma_pop_weight_keeps_frequent_ahead(
    e1: &SwipeEngine,
    e2: &SwipeEngine,
    input: Seq<char>,
    prev: Option<Seq<char>>,
    limit: nat,
    a: Candidate,
    b: Candidate,
    pa: int,
    pb: int,
)
    requires
        e1.dictionary_spec() == e2.dictionary_spec(),
        e1.keys() == e2.keys(),
        e1.bigram_weight_spec() == e2.bigram_weight_spec(),
        e1.pop_weight_spec() < e2.pop_weight_spec(),
        a.freq > b.freq,
        0 <= pa < pb < e1.predict_spec(input, prev, limit).len(),
        e1.predict_spec(input, prev, limit)[pa] == a,
        e1.predict_spec(input, prev, limit)[pb] == b,
    ensures
        forall|p: int, q: int|
            0 <= p < e2.predict_spec(input, prev, limit).len() && 0 <= q < e2.predict_spec(
                input,
                prev,
                limit,
            ).len() && #[trigger] e2.predict_spec(input, prev, limit)[p] == a
                && #[trigger] e2.predict_spec(input, prev, limit)[q] == b ==> p < q,
{
    let pw1 = e1.pop_weight_spec();
    let pw2 = e2.pop_weight_spec();
    let bw = e2.bigram_weight_spec();
    let r1 = e1.predict_spec(input, prev, limit);
    let r2 = e2.predict_spec(input, prev, limit);
    let raw = word_path_spec(input, e2.keys());
    assert(raw.len() != 0 && input.len() != 0);
    let last = fold_spec(input.last());
    let q = Query {
        path: simplify_spec(raw),
        last,
        last_pt: match assoc(e2.keys(), last) {
            Some(p) => p,
            None => Point { x: 0, y: 0 },
        },
        prev: match prev {
            Some(p) => Some(lower_of(p)),
            None => None,
        },
    };
    let cands = first_letter_indices(e2.words(), fold_spec(input[0]), e2.words().len());
    lemma_survivors_ignore_weights(e1, e2, q, cands);
    let survivors = e2.scan(q, cands).0;
    let ranked1 = rank(survivors, pw1, bw);
    let ranked2 = rank(survivors, pw2, bw);
    lemma_rank_in_order(survivors, pw1, bw);
    lemma_rank_in_order(survivors, pw2, bw);
    assert(r1[pa] == ranked1[pa] && r1[pb] == ranked1[pb]);
    assert(rank_key(a, pw1, bw) <= rank_key(b, pw1, bw));
    lemma_pop_weight_favours_frequent(a, b, pw1, pw2, bw);
    assert forall|p: int, j: int| 0 <= p < r2.len() && 0 <= j < r2.len() && r2[p] == a && r2[j] == b implies p < j by {
        assert(r2[p] == ranked2[p] && r2[j] == ranked2[j]);
        if j <= p {
            assert(rank_key(ranked2[j], pw2, bw) <= rank_key(ranked2[p], pw2, bw));
        }
    }
}


/// The candidate that a word whose path is exactly the gesture's yields:
/// score zero, with its frequency signal.
pub open spec fn exact_candidate(e: &SwipeEngine, q: Query, idx: usize) -> Candidate {
    let key = lower_of(e.words()[idx as int]);
    let info = assoc(e.dictionary_spec().info_table(), key);
    Candidate {
        index: idx,
        score: 0,
        freq: match info {
            Some(i) => i.log_freq,
            None => 0,
        },
        bigram: bigram_spec(e.dictionary_spec().pairs_table(), info, q.prev, key),
    }
}

proof fn lemma_first_letter_member(words: Seq<Seq<char>>, c: char, k: nat, i: int)
    requires
        0 <= i < k <= words.len() <= usize::MAX,
        words[i].len() > 0,
        fold_spec(words[i][0]) == c,
    ensures
        first_letter_indices(words, c, k).contains(i as usize),
        first_letter_indices(words, c, k).len() <= k,
    decreases k,
{
    let pre = first_letter_indices(words, c, (k - 1) as nat);
    if i < k - 1 {
        lemma_first_letter_member(words, c, (k - 1) as nat, i);
        let m = choose|m: int| 0 <= m < pre.len() && pre[m] == i as usize;
        assert(first_letter_indices(words, c, k)[m] == i as usize);
    } else {
        lemma_first_letter_len(words, c, (k - 1) as nat);
        assert(first_letter_indices(words, c, k)[pre.len() as int] == i as usize);
    }
}

proof fn lemma_first_letter_len(words: Seq<Seq<char>>, c: char, k: nat)
    ensures
        first_letter_indices(words, c, k).len() <= k,
    decreases k,
{
    if k > 0 {
        lemma_first_letter_len(words, c, (k - 1) as nat);
    }
}

/// An exact trace survives every cutoff: its candidate stays among the
/// survivors of the scan.
proof fn lemma_scan_keeps_exact(e: &SwipeEngine, q: Query, cands: Seq<usize>, t: int)
    requires
        0 <= t < cands.len(),
        cands[t] < e.words().len(),
        e.words()[cands[t] as int].len() > 0,
        0 < q.path.len() <= usize::MAX,
        simplify_spec(word_path_spec(e.words()[cands[t] as int], e.keys())) == q.path,
        lower_char_of(e.words()[cands[t] as int].last()) == q.last,
    ensures
        e.scan(q, cands).0.contains(exact_candidate(e, q, cands[t])),
        e.scan(q, cands).0.len() <= cands.len(),
    decreases cands.len(),
{
    let pre = cands.drop_last();
    let (acc, best) = e.scan(q, pre);
    lemma_scan_len(e, q, pre);
    if t == cands.len() - 1 {
        let idx = cands[t];
        let w = window_for(q.path.len());
        lemma_dtw_self_zero(q.path, w);
        match cutoff_for(best, q.path.len()) {
            Some(c) => lemma_dtw_within_cutoff(q.path, q.path, w, c),
            None => {},
        }
        assert(end_penalty_spec(e.keys(), q, e.words()[idx as int]) == 0);
        assert(e.evaluate(q, idx, best) == Some(exact_candidate(e, q, idx)));
        assert(e.scan(q, cands).0[acc.len() as int] == exact_candidate(e, q, idx));
    } else {
        assert(pre[t] == cands[t]);
        lemma_scan_keeps_exact(e, q, pre, t);
        let m = choose|m: int| 0 <= m < acc.len() && acc[m] == exact_candidate(e, q, cands[t]);
        assert(e.scan(q, cands).0[m] == acc[m]);
    }
}

proof fn lemma_scan_len(e: &SwipeEngine, q: Query, cands: Seq<usize>)
    ensures
        e.scan(q, cands).0.len() <= cands.len(),
    decreases cands.len(),
{
    if cands.len() > 0 {
        lemma_scan_len(e, q, cands.drop_last());
    }
}

/// A dictionary word whose path is exactly the gesture's, starting with
/// its first character and ending with its last, is always reported (when
/// the limit admits every word), with score zero and its frequency signal:
/// the cutoff never prunes it.
pub proof fn lemma_exact_trace_reported(
    e: &SwipeEngine,
    input: Seq<char>,
    prev: Option<Seq<char>>,
    limit: nat,
    idx: usize,
)
    requires
        input.len() > 0,
        word_path_spec(input, e.keys()).len() > 0,
        simplify_spec(word_path_spec(input, e.keys())).len() <= usize::MAX,
        e.words().len() <= usize::MAX,
        idx < e.words().len() <= limit,
        e.words()[idx as int].len() > 0,
        fold_spec(e.words()[idx as int][0]) == fold_spec(input[0]),
        lower_char_of(e.words()[idx as int].last()) == fold_spec(input.last()),
        simplify_spec(word_path_spec(e.words()[idx as int], e.keys())) == simplify_spec(
            word_path_spec(input, e.keys()),
        ),
    ensures
        e.predict_spec(input, prev, limit).contains(
            exact_candidate(
                e,
                Query {
                    path: simplify_spec(word_path_spec(input, e.keys())),
                    last: fold_spec(input.last()),
                    last_pt: match assoc(e.keys(), fold_spec(input.last())) {
                        Some(p) => p,
                        None => Point { x: 0, y: 0 },
                    },
                    prev: match prev {
                        Some(p) => Some(lower_of(p)),
                        None => None,
                    },
                },
                idx,
            ),
        ),
{
    let raw = word_path_spec(input, e.keys());
    crate::geometry::lemma_simplify_shape(raw);
    let last = fold_spec(input.last());
    let q = Query {
        path: simplify_spec(raw),
        last,
        last_pt: match assoc(e.keys(), last) {
            Some(p) => p,
            None => Point { x: 0, y: 0 },
        },
        prev: match prev {
            Some(p) => Some(lower_of(p)),
            None => None,
        },
    };
    let n = e.words().len();
    let cands = first_letter_indices(e.words(), fold_spec(input[0]), n);
    lemma_first_letter_member(e.words(), fold_spec(input[0]), n, idx as int);
    let t = choose|t: int| 0 <= t < cands.len() && cands[t] == idx;
    lemma_scan_keeps_exact(e, q, cands, t);
    let survivors = e.scan(q, cands).0;
    let pw = e.pop_weight_spec();
    let bw = e.bigram_weight_spec();
    lemma_rank_contains(survivors, pw, bw);
    let c = exact_candidate(e, q, idx);
    let j = choose|j: int| 0 <= j < survivors.len() && survivors[j] == c;
    assert(rank(survivors, pw, bw).contains(survivors[j]));
    assert(e.predict_spec(input, prev, limit) == rank(survivors, pw, bw));
}


/// The log frequency of the word at a position (0 if unknown).
pub open spec fn freq_of(e: &SwipeEngine, idx: int) -> u32 {
    match assoc(e.dictionary_spec().info_table(), lower_of(e.words()[idx])) {
        Some(i) => i.log_freq,
        None => 0,
    }
}

proof fn lemma_scan_facts(e: &SwipeEngine, q: Query, cands: Seq<usize>)
    ensures
        forall|k: int| 0 <= k < e.scan(q, cands).0.len() ==> {
            let c = #[trigger] e.scan(q, cands).0[k];
            &&& cands.contains(c.index)
            &&& c.freq == freq_of(e, c.index as int)
            &&& q.prev is None ==> c.bigram == 0
        },
    decreases cands.len(),
{
    if cands.len() > 0 {
        let pre = cands.drop_last();
        lemma_scan_facts(e, q, pre);
        let acc = e.scan(q, pre).0;
        let out = e.scan(q, cands).0;
        assert forall|k: int| 0 <= k < out.len() implies {
            let c = #[trigger] out[k];
            &&& cands.contains(c.index)
            &&& c.freq == freq_of(e, c.index as int)
            &&& q.prev is None ==> c.bigram == 0
        } by {
            if k < acc.len() {
                assert(out[k] == acc[k]);
                let m = choose|m: int| 0 <= m < pre.len() && pre[m] == acc[k].index;
                assert(cands[m] == pre[m]);
            } else {
                assert(out[k].index == cands[cands.len() - 1]);
            }
        }
    }
}

/// With no previous word and a non-negative frequency weight, a word whose
/// path is exactly the gesture's, and which is at least as frequent as
/// every word sharing its first letter, makes the first prediction one of
/// score zero; with a positive weight, also one of that top frequency.
pub proof fn lemma_exact_trace_ranks_first(e: &SwipeEngine, input: Seq<char>, limit: nat, idx: usize)
    requires
        input.len() > 0,
        word_path_spec(input, e.keys()).len() > 0,
        simplify_spec(word_path_spec(input, e.keys())).len() <= usize::MAX,
        e.words().len() <= usize::MAX,
        idx < e.words().len() <= limit,
        e.words()[idx as int].len() > 0,
        fold_spec(e.words()[idx as int][0]) == fold_spec(input[0]),
        lower_char_of(e.words()[idx as int].last()) == fold_spec(input.last()),
        simplify_spec(word_path_spec(e.words()[idx as int], e.keys())) == simplify_spec(
            word_path_spec(input, e.keys()),
        ),
        e.pop_weight_spec() >= 0,
        forall|j: int|
            0 <= j < e.words().len() && e.words()[j].len() > 0 && fold_spec(e.words()[j][0])
                == fold_spec(input[0]) ==> #[trigger] freq_of(e, j) <= freq_of(e, idx as int),
    ensures
        e.predict_spec(input, None, limit).len() > 0,
        e.predict_spec(input, None, limit)[0].score == 0,
        e.pop_weight_spec() > 0 ==> e.predict_spec(input, None, limit)[0].freq == freq_of(e, idx as int),
{
    lemma_exact_trace_reported(e, input, None, limit, idx);
    let raw = word_path_spec(input, e.keys());
    let last = fold_spec(input.last());
    let q = Query {
        path: simplify_spec(raw),
        last,
        last_pt: match assoc(e.keys(), last) {
            Some(p) => p,
            None => Point { x: 0, y: 0 },
        },
        prev: None,
    };
    let n = e.words().len();
    let first = fold_spec(input[0]);
    let cands = first_letter_indices(e.words(), first, n);
    let survivors = e.scan(q, cands).0;
    let pw = e.pop_weight_spec();
    let bw = e.bigram_weight_spec();
    let r = rank(survivors, pw, bw);
    lemma_scan_len(e, q, cands);
    lemma_first_letter_len(e.words(), first, n);
    lemma_rank_contains(survivors, pw, bw);
    assert(e.predict_spec(input, None, limit) == r);
    let c = exact_candidate(e, q, idx);
    assert(c.bigram == 0);
    let m = choose|m: int| 0 <= m < r.len() && r[m] == c;
    lemma_rank_in_order(survivors, pw, bw);
    lemma_rank_from(survivors, pw, bw);
    lemma_scan_facts(e, q, cands);
    let r0 = r[0];
    assert(survivors.contains(r0));
    let k = choose|k: int| 0 <= k < survivors.len() && survivors[k] == r0;
    assert(cands.contains(r0.index));
    let t = choose|t: int| 0 <= t < cands.len() && cands[t] == r0.index;
    lemma_first_letter_indices(e.words(), first, n);
    assert(freq_of(e, r0.index as int) <= freq_of(e, idx as int));
    if m > 0 {
        assert(rank_key(r[0], pw, bw) <= rank_key(r[m], pw, bw));
    }
    assert(rank_key(r0, pw, bw) <= rank_key(c, pw, bw));
    assert(r0.bigram == 0 && r0.freq <= c.freq);
    assert(r0.score * 1000 <= (r0.freq - c.freq) * pw) by (nonlinear_arith)
        requires
            r0.score * 1000 - r0.freq * pw - r0.bigram * bw <= c.score * 1000 - c.freq * pw - c.bigram * bw,
            r0.bigram == 0,
            c.bigram == 0,
            c.score == 0,
    ;
    assert((r0.freq - c.freq) * pw <= 0) by (nonlinear_arith)
        requires
            r0.freq <= c.freq,
            pw >= 0,
    ;
    if pw > 0 {
        assert(r0.freq >= c.freq) by (nonlinear_arith)
            requires
                0 <= r0.score * 1000 <= (r0.freq - c.freq) * pw,
                pw > 0,
        ;
    }
}

} // verus!
