use rust_qsim::selectors::{
    BestScoreSelector, DefaultSelector, DefaultStrategy, KeepLastSelector, PlanSelection,
    WorstScoreSelector,
};

/// Plans with the given scores (as order keys); the first plan is the selected one.
fn plans_with_scores(scores: &[Option<i64>]) -> Vec<PlanSelection> {
    scores
        .iter()
        .enumerate()
        .map(|(i, s)| PlanSelection { selected: i == 0, score_key: *s, score_is_nan: false })
        .collect()
}

#[test]
fn keep_last_selector_returns_selected_plan_index() {
    let plans = plans_with_scores(&[Some(1), Some(2)]);
    assert_eq!(0, KeepLastSelector.select(&plans));
}

#[test]
fn keep_last_selector_finds_a_later_selected_plan() {
    let mut plans = plans_with_scores(&[Some(1), Some(2), Some(3)]);
    plans[0].selected = false;
    plans[2].selected = true;
    assert_eq!(2, KeepLastSelector.select(&plans));
}

#[test]
fn worst_selector_treats_missing_score_as_worst() {
    let plans = plans_with_scores(&[Some(1), None, Some(-5)]);
    assert_eq!(1, WorstScoreSelector.select(&plans));
}

#[test]
fn worst_selector_prefers_removing_unselected_plans() {
    let mut plans = plans_with_scores(&[Some(-100), Some(1)]);
    plans[0].selected = true;
    plans[1].selected = false;
    assert_eq!(1, WorstScoreSelector.select(&plans));
}

#[test]
fn worst_selector_treats_nan_as_missing_and_keeps_the_first_of_equals() {
    let mut plans = plans_with_scores(&[Some(0), Some(3), Some(7), Some(3)]);
    plans[2].score_is_nan = true;
    assert_eq!(2, WorstScoreSelector.select(&plans));
    let plans = plans_with_scores(&[Some(0), Some(3), Some(3)]);
    assert_eq!(1, WorstScoreSelector.select(&plans));
}

#[test]
fn worst_selector_with_all_plans_selected_chooses_among_all() {
    let mut plans = plans_with_scores(&[Some(5), Some(-1)]);
    plans[1].selected = true;
    assert_eq!(1, WorstScoreSelector.select(&plans));
}

#[test]
fn best_selector_picks_the_last_of_the_highest_scores() {
    let plans = plans_with_scores(&[Some(2), None, Some(9), Some(9), Some(-4)]);
    assert_eq!(3, BestScoreSelector.select(&plans));
    let plans = plans_with_scores(&[None, Some(-3)]);
    assert_eq!(1, BestScoreSelector.select(&plans));
}

#[test]
fn default_selector_names_round_trip() {
    for s in [
        DefaultSelector::KeepLastSelected,
        DefaultSelector::BestScore,
        DefaultSelector::SelectRandom,
        DefaultSelector::WorstScore,
    ] {
        assert_eq!(Ok(s), DefaultSelector::from_str(s.as_str()));
    }
    assert_eq!("KeepLastSelected", DefaultSelector::KeepLastSelected.as_str());
    assert_eq!("BestScore", DefaultSelector::BestScore.as_str());
    assert_eq!("SelectRandom", DefaultSelector::SelectRandom.as_str());
    assert_eq!("WorstScore", DefaultSelector::WorstScore.as_str());
}

#[test]
fn default_selector_rejects_unknown_names() {
    assert_eq!(
        Err("Unknown DefaultSelector: ReRoute".to_string()),
        DefaultSelector::from_str("ReRoute")
    );
    assert_eq!(
        Err("Unknown DefaultStrategy: BestScore".to_string()),
        DefaultStrategy::from_str("BestScore")
    );
    assert_eq!(Ok(DefaultStrategy::ReRoute), DefaultStrategy::from_str("ReRoute"));
    assert_eq!("ReRoute", DefaultStrategy::ReRoute.as_str());
}
