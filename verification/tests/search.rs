use coinage::{
    best_wrapper, enumerate, find_bests, mk_needs, score, search, Max, Quad, ScoreType, Scoring,
    Spec, Sum, MIN_SCORE, UNREACHABLE,
};

#[test]
fn change_with_one_and_two() {
    let spec = Spec { top: 4, frac: 1, num: 2 };
    assert_eq!(mk_needs(&spec, &vec![1, 2]), vec![0, 1, 1, 2]);
}

#[test]
fn change_is_made_with_the_fewest_coins() {
    let spec = Spec { top: 13, frac: 1, num: 3 };
    // Taking the largest coin first would pay 6 with 4, 1, 1.
    assert_eq!(
        mk_needs(&spec, &vec![1, 3, 4]),
        vec![0, 1, 2, 1, 1, 2, 2, 2, 2, 3, 3, 3, 3]
    );
}

#[test]
fn amounts_that_cannot_be_paid_are_marked() {
    let spec = Spec { top: 2, frac: 3, num: 2 };
    let m = UNREACHABLE;
    assert_eq!(mk_needs(&spec, &vec![2, 5]), vec![0, m, 1, m, 2, 1]);
    assert_eq!(mk_needs(&spec, &vec![4]), vec![0, m, m, m, 1, m]);
    assert_eq!(mk_needs(&spec, &vec![]), vec![0, m, m, m, m, m]);
}

#[test]
fn the_table_starts_with_no_coins_for_nothing() {
    for top in 1..5 {
        for frac in 1..4 {
            let nd = mk_needs(&Spec { top, frac, num: 1 }, &vec![1]);
            assert_eq!(nd.len(), top * frac);
            assert_eq!(nd[0], 0);
        }
    }
    assert!(mk_needs(&Spec { top: 0, frac: 3, num: 1 }, &vec![1]).is_empty());
    assert!(mk_needs(&Spec { top: 3, frac: 0, num: 1 }, &vec![1]).is_empty());
}

#[test]
fn coins_above_the_amounts_and_coins_of_nothing_do_not_count() {
    let spec = Spec { top: 5, frac: 1, num: 3 };
    assert_eq!(mk_needs(&spec, &vec![1, 7, 9]), vec![0, 1, 2, 3, 4]);
    assert_eq!(mk_needs(&spec, &vec![0, 2]), vec![0, UNREACHABLE, 1, UNREACHABLE, 2]);
}

#[test]
fn each_cost_is_one_more_than_the_best_before_it() {
    let coins = vec![2, 3, 7];
    let spec = Spec { top: 30, frac: 1, num: 3 };
    let nd = mk_needs(&spec, &coins);
    assert_eq!(nd[0], 0);
    for t in 1..nd.len() {
        let before = coins
            .iter()
            .filter(|&&c| c <= t && nd[t - c] != UNREACHABLE)
            .map(|&c| nd[t - c])
            .min();
        match before {
            Some(least) => assert_eq!(nd[t], least + 1),
            None => assert_eq!(nd[t], UNREACHABLE),
        }
    }
}

#[test]
fn scores_of_one_and_two() {
    let spec = Spec { top: 4, frac: 1, num: 2 };
    let nd = mk_needs(&spec, &vec![1, 2]);
    assert_eq!(score(&Sum, &spec, &nd), 4);
    assert_eq!(score(&Max, &spec, &nd), 2);
    assert_eq!(score(&Quad, &spec, &nd), 6);
}

#[test]
fn only_whole_main_units_are_scored() {
    let spec = Spec { top: 3, frac: 2, num: 2 };
    // Amounts 0..6 in halves; 2 and 4 are scored.
    let nd = vec![0, 7, 3, 7, 5, 7];
    assert_eq!(score(&Sum, &spec, &nd), 8);
    assert_eq!(score(&Max, &spec, &nd), 5);
    assert_eq!(score(&Quad, &spec, &nd), 34);
}

#[test]
fn score_of_nothing_is_the_least() {
    let nd = vec![0];
    for top in 0..2 {
        let spec = Spec { top, frac: 1, num: 1 };
        assert_eq!(score(&Sum, &spec, &nd), MIN_SCORE);
        assert_eq!(score(&Max, &spec, &nd), MIN_SCORE);
        assert_eq!(score(&Quad, &spec, &nd), MIN_SCORE);
    }
}

#[test]
fn one_unreachable_amount_makes_the_score_unreachable() {
    let spec = Spec { top: 4, frac: 1, num: 1 };
    let nd = vec![0, 1, UNREACHABLE, 1];
    assert_eq!(score(&Sum, &spec, &nd), UNREACHABLE);
    assert_eq!(score(&Max, &spec, &nd), UNREACHABLE);
    assert_eq!(score(&Quad, &spec, &nd), UNREACHABLE);
    let nd = vec![0, UNREACHABLE, UNREACHABLE, UNREACHABLE];
    assert_eq!(score(&Sum, &spec, &nd), UNREACHABLE);
    assert_eq!(score(&Max, &spec, &nd), UNREACHABLE);
    assert_eq!(score(&Quad, &spec, &nd), UNREACHABLE);
}

#[test]
fn folds_of_two_scores() {
    assert_eq!(Sum.fold_fn(3, 4), 7);
    assert_eq!(Max.fold_fn(3, 4), 4);
    assert_eq!(Max.fold_fn(4, 3), 4);
    assert_eq!(Quad.fold_fn(3, 4), 19);
    assert_eq!(Sum.fold_fn(0, 0), 0);
    assert_eq!(Quad.fold_fn(0, 0), 0);
}

#[test]
fn folds_stop_at_the_ceiling() {
    assert_eq!(Sum.fold_fn(usize::MAX, 1), UNREACHABLE);
    assert_eq!(Sum.fold_fn(usize::MAX - 1, 1), usize::MAX);
    assert_eq!(Sum.fold_fn(usize::MAX - 2, 1), usize::MAX - 1);
    assert_eq!(Quad.fold_fn(0, usize::MAX), UNREACHABLE);
    assert_eq!(Quad.fold_fn(1, 1 << (usize::BITS / 2)), UNREACHABLE);
    assert_eq!(Quad.fold_fn(usize::MAX - 3, 2), UNREACHABLE);
    assert_eq!(Quad.fold_fn(usize::MAX - 5, 2), usize::MAX - 1);
    assert_eq!(Max.fold_fn(usize::MAX, 0), UNREACHABLE);
}

fn bests_of(
    kind: ScoreType,
    top: usize,
    frac: usize,
    num: usize,
    show: usize,
) -> (Vec<Vec<usize>>, usize, usize) {
    let r = search(kind, &Spec { top, frac, num }, show);
    (r.bests, r.score, r.ties)
}

#[test]
fn ties_are_all_shown_when_asked() {
    // Amounts 1 to 4: with 1 and 2, or 1 and 3, six coins; with 1 and 4, seven.
    assert_eq!(
        bests_of(ScoreType::Sum, 5, 1, 2, 0),
        (vec![vec![1, 2], vec![1, 3]], 6, 2)
    );
    assert_eq!(
        bests_of(ScoreType::Sum, 5, 1, 2, 5),
        (vec![vec![1, 2], vec![1, 3]], 6, 2)
    );
    assert_eq!(
        bests_of(ScoreType::Sum, 5, 1, 2, 2),
        (vec![vec![1, 2], vec![1, 3]], 6, 2)
    );
}

#[test]
fn ties_beyond_the_number_to_show_are_counted() {
    assert_eq!(bests_of(ScoreType::Sum, 5, 1, 2, 1), (vec![vec![1, 2]], 6, 2));
    assert_eq!(bests_of(ScoreType::Max, 5, 1, 2, 1), (vec![vec![1, 2]], 2, 2));
    assert_eq!(bests_of(ScoreType::Quad, 5, 1, 2, 1), (vec![vec![1, 2]], 10, 2));
}

#[test]
fn a_later_better_candidate_drops_the_earlier_ones() {
    // Amounts 1 to 6 with two coins: 1 and 2 take 12 coins, 1 and 3 take 11,
    // 1 and 4 take 12 again.
    assert_eq!(bests_of(ScoreType::Sum, 7, 1, 2, 0), (vec![vec![1, 3]], 11, 1));
}

#[test]
fn a_search_without_candidates_finds_nothing() {
    assert_eq!(bests_of(ScoreType::Sum, 1, 1, 1, 0), (vec![], UNREACHABLE, 0));
    assert_eq!(bests_of(ScoreType::Max, 0, 1, 1, 3), (vec![], UNREACHABLE, 0));
    assert_eq!(bests_of(ScoreType::Quad, 5, 0, 1, 3), (vec![], UNREACHABLE, 0));
    assert_eq!(bests_of(ScoreType::Sum, 5, 1, 0, 3), (vec![], UNREACHABLE, 0));
}

#[test]
fn the_list_of_the_best_is_as_long_as_asked_or_as_there_are() {
    for top in 2..9 {
        for num in 1..4 {
            let all = search(ScoreType::Sum, &Spec { top, frac: 1, num }, 0);
            assert_eq!(all.bests.len(), all.ties);
            for show in 1..4 {
                let r = search(ScoreType::Sum, &Spec { top, frac: 1, num }, show);
                assert_eq!(r.score, all.score);
                assert_eq!(r.ties, all.ties);
                assert!(r.ties >= r.bests.len());
                assert_eq!(r.bests.len(), r.ties.min(show));
                assert_eq!(r.bests[..], all.bests[..r.bests.len()]);
            }
        }
    }
}

#[test]
fn four_coins_below_a_hundred() {
    let r = search(ScoreType::Sum, &Spec { top: 100, frac: 1, num: 4 }, 5);
    assert_eq!(r.bests, vec![vec![1, 5, 18, 25], vec![1, 5, 18, 29]]);
    assert_eq!(r.score, 389);
    assert_eq!(r.ties, 2);
}

#[test]
fn halves_below_four() {
    // Denominations in halves below four main units, two of them: the
    // candidates are the pairs of two odd numbers with 1 first.
    let spec = Spec { top: 4, frac: 2, num: 2 };
    let found = enumerate(&spec).into_vec();
    assert_eq!(found, vec![vec![1, 3], vec![1, 5], vec![1, 7]]);
    // 2, 4, 6 halves: with 1 and 3: 2, 2, 2; with 1 and 5: 2, 4, 2; with 1 and 7: 2, 4, 6.
    let r = find_bests(&Sum, &spec, enumerate(&spec), 0);
    assert_eq!((r.bests, r.score, r.ties), (vec![vec![1, 3]], 6, 1));
    let r = find_bests(&Max, &spec, enumerate(&spec), 0);
    assert_eq!((r.bests, r.score, r.ties), (vec![vec![1, 3]], 2, 1));
}

#[test]
fn find_bests_goes_on_from_where_the_candidates_stand() {
    let spec = Spec { top: 5, frac: 1, num: 2 };
    let mut it = enumerate(&spec);
    assert_eq!(it.next(), Some(vec![1, 2]));
    let r = find_bests(&Sum, &spec, it, 0);
    assert_eq!((r.bests, r.score, r.ties), (vec![vec![1, 3]], 6, 1));
}

#[test]
fn find_bests_scores_by_its_own_spec() {
    // The candidates of a search in thirds, scored for one main unit of 5:
    // those that hold a 5 pay it with one coin.
    let spec = Spec { top: 2, frac: 5, num: 3 };
    let it = enumerate(&Spec { top: 2, frac: 3, num: 3 });
    let r = find_bests(&Sum, &spec, it, 0);
    assert_eq!(r.score, 1);
    assert_eq!(
        r.bests,
        vec![vec![1, 2, 5], vec![1, 3, 5], vec![1, 4, 5], vec![3, 4, 5]]
    );
    assert_eq!(r.ties, 4);
}

#[test]
fn candidates_that_cannot_pay_tie_at_the_ceiling() {
    let mut it = enumerate(&Spec { top: 2, frac: 3, num: 3 });
    for _ in 0..6 {
        assert!(it.next().is_some());
    }
    // What is left is 3, 4, 5, which pays neither 1 nor 2.
    let spec = Spec { top: 3, frac: 1, num: 3 };
    let r = find_bests(&Quad, &spec, it, 0);
    assert_eq!((r.bests, r.score, r.ties), (vec![vec![3, 4, 5]], UNREACHABLE, 1));
}

#[test]
fn best_wrapper_is_the_search_under_a_policy() {
    let spec = Spec { top: 7, frac: 1, num: 2 };
    let a = best_wrapper(Max, &spec, 0);
    let b = search(ScoreType::Max, &spec, 0);
    assert_eq!((a.bests, a.score, a.ties), (b.bests, b.score, b.ties));
    // 1 to 6 with 1 and 2, 1 and 3, or 1 and 4 take at most 3 coins; with 1
    // and 5 the amount 4 takes four.
    let c = best_wrapper(Max, &spec, 0);
    assert_eq!(c.score, 3);
    assert_eq!(c.bests, vec![vec![1, 2], vec![1, 3], vec![1, 4]]);
    assert_eq!(c.ties, 3);
}

#[test]
fn score_types_compare() {
    assert!(ScoreType::Sum == ScoreType::Sum);
    assert!(ScoreType::Sum != ScoreType::Max);
    let k = ScoreType::Quad;
    let l = k;
    assert!(k == l);
}
