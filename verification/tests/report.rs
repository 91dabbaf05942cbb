use coinage::{
    enumerate, find_bests, label, runs_frac, runs_num, runs_top, score, search, Bests, Score,
    ScoreType, Scoring, Spec, Sweep,
};

#[test]
fn tops_but_zero_are_run() {
    assert!(!runs_top(0));
    assert!(runs_top(1));
    assert!(runs_top(100));
}

#[test]
fn numbers_of_denominations_below_the_top_are_run() {
    assert!(!runs_num(10, 0));
    assert!(runs_num(10, 1));
    assert!(runs_num(10, 9));
    assert!(!runs_num(10, 10));
    assert!(!runs_num(10, 11));
    assert!(!runs_num(1, 1));
}

#[test]
fn fractions_are_not_run_where_they_change_nothing() {
    assert!(runs_frac(10, 1, 1));
    assert!(runs_frac(10, 9, 1));
    assert!(runs_frac(10, 1, 0));
    assert!(!runs_frac(10, 1, 2));
    assert!(!runs_frac(10, 9, 2));
    assert!(runs_frac(10, 2, 2));
    assert!(runs_frac(10, 8, 3));
}

#[test]
fn each_policy_has_its_word() {
    assert_eq!(label(ScoreType::Sum), "need");
    assert_eq!(label(ScoreType::Max), "max");
    assert_eq!(label(ScoreType::Quad), "score");
}

#[test]
fn fractions_are_marked_where_they_do_as_well() {
    let mut sweep = Sweep::new();
    assert_eq!(sweep.first, 0);
    assert!(!sweep.mark(1, 389));
    assert_eq!(sweep.first, 389);
    assert!(sweep.mark(2, 389));
    assert!(sweep.mark(3, 380));
    assert!(!sweep.mark(4, 390));
    assert_eq!(sweep.first, 389);
    assert!(!sweep.mark(1, 10));
    assert_eq!(sweep.first, 10);
}

#[test]
fn fractions_before_whole_units_are_held_against_nothing() {
    let mut sweep = Sweep::new();
    assert!(!sweep.mark(2, 5));
    assert!(sweep.mark(2, 0));
    assert_eq!(sweep.first, 0);
}

#[test]
fn omitted_are_the_ties_that_are_not_shown() {
    let r = search(ScoreType::Max, &Spec { top: 7, frac: 1, num: 2 }, 1);
    assert_eq!(r.ties, 3);
    assert_eq!(r.omitted(), 2);
    let r = search(ScoreType::Max, &Spec { top: 7, frac: 1, num: 2 }, 0);
    assert_eq!(r.omitted(), 0);
    let r = search(ScoreType::Max, &Spec { top: 7, frac: 1, num: 2 }, 3);
    assert_eq!(r.omitted(), 0);
    let r = search(ScoreType::Max, &Spec { top: 7, frac: 1, num: 2 }, 7);
    assert_eq!(r.omitted(), 0);
    let odd = Bests { bests: vec![vec![1], vec![2]], score: 0, ties: 1 };
    assert_eq!(odd.omitted(), 0);
}

/// Scores by the number of amounts.
struct Count;

impl Scoring for Count {
    fn fold_spec(&self, a: Score, _b: Score) -> Score {
        a + 1
    }

    fn fold_fn(&self, a: Score, _b: Score) -> Score {
        a + 1
    }
}

#[test]
fn a_policy_of_ones_own() {
    let spec = Spec { top: 5, frac: 1, num: 2 };
    assert_eq!(score(&Count, &spec, &vec![0, 1, 1, 2, 2]), 4);
    let r = find_bests(&Count, &spec, enumerate(&spec), 0);
    assert_eq!(r.score, 4);
    assert_eq!(r.ties, 3);
    assert_eq!(r.bests, vec![vec![1, 2], vec![1, 3], vec![1, 4]]);
}
