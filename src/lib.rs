//! Swipe-typing word prediction: keyboard geometry, banded dynamic time
//! warping and a dictionary-driven ranking engine, all over integer
//! fixed-point coordinates.

pub mod dictionary;
pub mod dtw;
pub mod engine;
pub mod geometry;
pub mod ranking;
pub mod table;

pub use dictionary::{Dictionary, WordInfo};
pub use dtw::{dtw_distance, dtw_distance_fast, dtw_distance_fast as dtw_fast};
pub use engine::{EngineError, Prediction, SwipeEngine};
pub use ranking::{rank_candidates, Candidate};
pub use geometry::{
    euclidean_dist, euclidean_dist as euclidean_distance, get_keyboard_layout,
    get_keyboard_layout as keyboard_layout, get_word_path, get_word_path as word_path,
    simplify_path, simplify_path as path_simplify, Layout, Point, Point as PointType,
};
