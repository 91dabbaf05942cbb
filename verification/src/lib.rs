//! Search for the coin denominations that make change with the fewest coins.
//!
//! A search is for a number of denominations that pay every whole amount
//! below a top value, where the main unit may be divided into fractions.
//! `enumerate` lists the sets of denominations that are worth a look,
//! `mk_needs` counts the coins that each amount takes with one set, `score`
//! folds those counts into one number under a policy, and `find_bests` keeps
//! the sets with the lowest score.

pub mod change;
pub mod combos;
pub mod enumerate;
pub mod fractions;
pub mod numbers;
pub mod range;
pub mod report;
pub mod scoring;
pub mod select;
pub mod show;

pub use change::mk_needs;
pub use enumerate::{enumerate, Candidates, Spec};
pub use fractions::is_nontrivial;
pub use numbers::gcd;
pub use range::{parse_range, NumberError};
pub use report::{label, runs_frac, runs_num, runs_top, Sweep};
pub use scoring::{Max, Quad, Score, ScoreType, Scoring, Sum, MIN_SCORE, UNREACHABLE};
pub use select::{best_wrapper, find_bests, score, search, Bests};
pub use show::{show_coin, show_coins};
