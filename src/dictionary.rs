//! The dictionary that the engine ranks: its words, their frequency
//! statistics and, optionally, word-pair continuation counts.
//!
//! Frequencies and probabilities are fixed-point numbers in thousandths.
use vstd::prelude::*;
use crate::table::{assoc, lemma_assoc_absent, lemma_assoc_first};

verus! {

/// Scale of the fixed-point frequencies, probabilities and weights.
pub const FIXED: u64 = 1000;

/// Frequency statistics of one word.
#[derive(Clone, Copy, Debug, PartialEq, Eq, Structural)]
pub struct WordInfo {
    /// Log-scaled popularity, normalised against the most frequent word,
    /// in thousandths.
    pub log_freq: u32,
    /// How often the word occurred in the corpus.
    pub count: u32,
}

/// Successor counts of one predecessor word.
pub type Successors = Vec<(String, u32)>;

/// An immutable dictionary. Keys of `word_info` and `pair_counts` are
/// lowercase words. Suppliers build these tables from maps, so their keys
/// are unique; the lookups here do not depend on that, though: where a key
/// occurs twice, its first entry counts. Uniqueness is not an invariant of
/// the type because checking it for string keys takes quadratic time here
/// (there is no specified hash or order on `String` to check it faster),
/// and every lookup is exact without it.
pub struct Dictionary {
    pub words: Vec<String>,
    pub word_info: Vec<(String, WordInfo)>,
    pub pair_counts: Option<Vec<(String, Successors)>>,
}

/// The characters of each string.
pub open spec fn strings_view(v: Seq<String>) -> Seq<Seq<char>> {
    v.map_values(|s: String| s@)
}

/// A table keyed by strings, seen with its keys as character sequences.
pub open spec fn keyed_view<V>(v: Seq<(String, V)>) -> Seq<(Seq<char>, V)> {
    v.map_values(|e: (String, V)| (e.0@, e.1))
}

/// The successor tables, each seen through `keyed_view`.
pub open spec fn pairs_view(v: Seq<(String, Successors)>) -> Seq<(Seq<char>, Seq<(Seq<char>, u32)>)> {
    v.map_values(|e: (String, Successors)| (e.0@, keyed_view(e.1@)))
}

/// Lowercase form of a string, as `str::to_lowercase` gives it.
pub uninterp spec fn lower_of(s: Seq<char>) -> Seq<char>;

/// Relies on `str::to_lowercase`: the lowercase form depends on the
/// characters alone.
#[verifier::external_body]
pub(crate) fn lowercase(s: &str) -> (r: String)
    ensures
        r@ == lower_of(s@),
{
    s.to_lowercase()
}

/// First character of the lowercase mapping of a character, as
/// `char::to_lowercase` gives it.
pub uninterp spec fn lower_char_of(c: char) -> char;

/// Relies on `char::to_lowercase`: the mapping depends on the character
/// alone and is never empty; its first character is taken.
#[verifier::external_body]
pub(crate) fn lower_char(c: char) -> (r: char)
    ensures
        r == lower_char_of(c),
{
    c.to_lowercase().next().unwrap_or(c)
}

/// How often `next` followed `prev`: 0 where the pair, the predecessor or
/// the whole table is absent.
pub open spec fn pair_count_spec(
    pairs: Option<Seq<(Seq<char>, Seq<(Seq<char>, u32)>)>>,
    prev: Seq<char>,
    next: Seq<char>,
) -> u32 {
    match pairs {
        None => 0,
        Some(p) => match assoc(p, prev) {
            None => 0,
            Some(succ) => match assoc(succ, next) {
                None => 0,
                Some(c) => c,
            },
        },
    }
}

/// The continuation probability of a word after `prev`, in thousandths:
/// its pair count over its own count, 0 where a piece is missing.
pub open spec fn bigram_spec(
    pairs: Option<Seq<(Seq<char>, Seq<(Seq<char>, u32)>)>>,
    info: Option<WordInfo>,
    prev: Option<Seq<char>>,
    word: Seq<char>,
) -> u64 {
    match (info, prev, pairs) {
        (Some(i), Some(p), Some(_)) => if i.count == 0 {
            0
        } else {
            (pair_count_spec(pairs, p, word) as int * FIXED as int / i.count as int) as u64
        },
        _ => 0,
    }
}

fn find_keyed<V>(v: &Vec<(String, V)>, key: &String) -> (r: Option<usize>)
    ensures
        match r {
            Some(i) => i < v@.len() && v@[i as int].0@ == key@ && forall|j: int|
                0 <= j < i ==> (#[trigger] v@[j]).0@ != key@,
            None => forall|j: int| 0 <= j < v@.len() ==> (#[trigger] v@[j]).0@ != key@,
        },
{
    let n = v.len();
    let mut i: usize = 0;
    while i < n
        invariant
            i <= n == v@.len(),
            forall|j: int| 0 <= j < i ==> (#[trigger] v@[j]).0@ != key@,
        decreases n - i,
    {
        if v[i].0 == *key {
            return Some(i);
        }
        i = i + 1;
    }
    None
}

impl Dictionary {
    pub open spec fn info_table(&self) -> Seq<(Seq<char>, WordInfo)> {
        keyed_view(self.word_info@)
    }

    pub open spec fn pairs_table(&self) -> Option<Seq<(Seq<char>, Seq<(Seq<char>, u32)>)>> {
        match self.pair_counts {
            None => None,
            Some(p) => Some(pairs_view(p@)),
        }
    }

    /// A dictionary with no words.
    pub fn empty() -> (r: Dictionary)
        ensures
            r.words@.len() == 0,
            r.word_info@.len() == 0,
            r.pair_counts is None,
    {
        Dictionary { words: Vec::new(), word_info: Vec::new(), pair_counts: None }
    }

    /// The frequency statistics stored under a lowercase word.
    pub fn info(&self, key: &String) -> (r: Option<WordInfo>)
        ensures
            r == assoc(self.info_table(), key@),
    {
        let ghost s = self.info_table();
        match find_keyed(&self.word_info, key) {
            Some(i) => {
                proof {
                    lemma_assoc_first(s, key@, i as int);
                }
                Some(self.word_info[i].1)
            },
            None => {
                proof {
                    lemma_assoc_absent(s, key@);
                }
                None
            },
        }
    }

    /// How often lowercase `next` followed lowercase `prev`; 0 where the
    /// dictionary has no such count.
    pub fn pair_count(&self, prev: &String, next: &String) -> (r: u32)
        ensures
            r == pair_count_spec(self.pairs_table(), prev@, next@),
    {
        match &self.pair_counts {
            None => 0,
            Some(p) => {
                let ghost s = pairs_view(p@);
                match find_keyed(p, prev) {
                    None => {
                        proof {
                            lemma_assoc_absent(s, prev@);
                        }
                        0
                    },
                    Some(i) => {
                        proof {
                            lemma_assoc_first(s, prev@, i as int);
                        }
                        let succ = &p[i].1;
                        let ghost u = keyed_view(succ@);
                        match find_keyed(succ, next) {
                            None => {
                                proof {
                                    lemma_assoc_absent(u, next@);
                                }
                                0
                            },
                            Some(k) => {
                                proof {
                                    lemma_assoc_first(u, next@, k as int);
                                }
                                succ[k].1
                            },
                        }
                    },
                }
            },
        }
    }

    /// The frequency signal of a word for the ranking, from its lowercase
    /// form and the lowercase previous word: its log frequency (0 if
    /// unknown) and its continuation probability in thousandths.
    pub fn frequency_signal(&self, word_key: &String, prev_key: Option<&String>) -> (r: (u32, u64))
        ensures
            r.0 == (match assoc(self.info_table(), word_key@) {
                Some(i) => i.log_freq,
                None => 0,
            }),
            r.1 == bigram_spec(
                self.pairs_table(),
                assoc(self.info_table(), word_key@),
                match prev_key {
                    Some(p) => Some(p@),
                    None => None,
                },
                word_key@,
            ),
    {
        match self.info(word_key) {
            None => (0, 0),
            Some(info) => {
                let bigram: u64 = match prev_key {
                    Some(p) => if self.pair_counts.is_some() && info.count > 0 {
                        let c = self.pair_count(p, word_key);
                        (c as u64) * FIXED / (info.count as u64)
                    } else {
                        0
                    },
                    None => 0,
                };
                (info.log_freq, bigram)
            },
        }
    }
}

} // verus!
