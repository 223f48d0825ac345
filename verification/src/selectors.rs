use vstd::prelude::*;

verus! {

/// A plan as the selectors see it: whether it is the selected plan, an order key of its score
/// (keys compare as the scores do under the total order of floating-point numbers; `None` when
/// the plan has no score), and whether the score is not a number.
#[derive(Debug, Clone, Copy, PartialEq, Eq, Structural)]
pub struct PlanSelection {
    pub selected: bool,
    pub score_key: Option<i64>,
    pub score_is_nan: bool,
}

/// The score of a plan as the worst-score selector compares it: none for a missing score or
/// one that is not a number.
pub open spec fn comparable_score(p: PlanSelection) -> Option<i64> {
    if p.score_is_nan {
        None
    } else {
        p.score_key
    }
}

/// Plan `a` is worse than plan `b`: it has no comparable score while `b` has one, or both have
/// one and `a`'s is lower.
pub open spec fn worse(a: PlanSelection, b: PlanSelection) -> bool {
    match (comparable_score(a), comparable_score(b)) {
        (None, Some(_)) => true,
        (Some(x), Some(y)) => x < y,
        _ => false,
    }
}

fn plan_is_worse(candidate: PlanSelection, current: PlanSelection) -> (r: bool)
    ensures
        r == worse(candidate, current),
{
    let c = if candidate.score_is_nan {
        None
    } else {
        candidate.score_key
    };
    let d = if current.score_is_nan {
        None
    } else {
        current.score_key
    };
    match (c, d) {
        (None, Some(_)) => true,
        (Some(x), Some(y)) => x < y,
        _ => false,
    }
}

/// Keeps the plan that is selected.
pub struct KeepLastSelector;

impl KeepLastSelector {
    /// The index of the selected plan.
    pub fn select(&self, plans: &[PlanSelection]) -> (r: usize)
        requires
            exists|i: int| 0 <= i < plans@.len() && (#[trigger] plans@[i]).selected,
            forall|i: int, j: int|
                0 <= i < plans@.len() && 0 <= j < plans@.len() && (#[trigger] plans@[i]).selected
                    && (#[trigger] plans@[j]).selected ==> i == j,
        ensures
            r < plans@.len(),
            plans@[r as int].selected,
    {
        let mut i: usize = 0;
        while i < plans.len()
            invariant
                i <= plans@.len(),
                forall|k: int| 0 <= k < i ==> !(#[trigger] plans@[k]).selected,
                exists|k: int| 0 <= k < plans@.len() && (#[trigger] plans@[k]).selected,
            decreases plans.len() - i,
        {
            if plans[i].selected {
                return i;
            }
            i = i + 1;
        }
        vstd::pervasive::unreached()
    }
}

/// Selects the plan with the best score.
pub struct BestScoreSelector;

impl BestScoreSelector {
    /// Among the plans with a score, the index of the last one with the highest score.
    pub fn select(&self, plans: &[PlanSelection]) -> (r: usize)
        requires
            exists|i: int| 0 <= i < plans@.len() && (#[trigger] plans@[i]).score_key is Some,
        ensures
            r < plans@.len(),
            plans@[r as int].score_key is Some,
            forall|i: int|
                0 <= i < plans@.len() && (#[trigger] plans@[i]).score_key is Some ==> plans@[i].score_key->0
                    <= plans@[r as int].score_key->0,
            forall|i: int|
                r < i < plans@.len() && (#[trigger] plans@[i]).score_key is Some ==> plans@[i].score_key->0
                    < plans@[r as int].score_key->0,
    {
        let mut best: Option<usize> = None;
        let mut i: usize = 0;
        while i < plans.len()
            invariant
                i <= plans@.len(),
                exists|k: int| 0 <= k < plans@.len() && (#[trigger] plans@[k]).score_key is Some,
                best is None ==> forall|k: int| 0 <= k < i ==> (#[trigger] plans@[k]).score_key is None,
                best matches Some(b) ==> {
                    &&& b < i
                    &&& plans@[b as int].score_key is Some
                    &&& forall|k: int|
                        0 <= k < i && (#[trigger] plans@[k]).score_key is Some ==> plans@[k].score_key->0
                            <= plans@[b as int].score_key->0
                    &&& forall|k: int|
                        b < k < i && (#[trigger] plans@[k]).score_key is Some ==> plans@[k].score_key->0
                            < plans@[b as int].score_key->0
                },
            decreases plans.len() - i,
        {
            if let Some(key) = plans[i].score_key {
                match best {
                    None => {
                        best = Some(i);
                    },
                    Some(b) => {
                        if plans[b].score_key.unwrap() <= key {
                            best = Some(i);
                        }
                    },
                }
            }
            i = i + 1;
        }
        match best {
            Some(b) => b,
            None => vstd::pervasive::unreached(),
        }
    }
}

/// Selects a plan at random.
pub struct RandomSelector;

/// Selects the plan with the worst score, preferring plans that are not selected.
pub struct WorstScoreSelector;

/// The plans among which the worst-score selector chooses: those that are not selected, when
/// there is any; else all.
pub open spec fn is_candidate(plans: Seq<PlanSelection>, i: int) -> bool {
    let prefer_unselected = exists|k: int| 0 <= k < plans.len() && !(#[trigger] plans[k]).selected;
    !prefer_unselected || !plans[i].selected
}

impl WorstScoreSelector {
    /// The index of the first candidate plan with the worst score: plans without a comparable
    /// score are worst, then lower scores.
    pub fn select(&self, plans: &[PlanSelection]) -> (r: usize)
        requires
            plans@.len() > 0,
        ensures
            r < plans@.len(),
            is_candidate(plans@, r as int),
            forall|i: int|
                0 <= i < plans@.len() && #[trigger] is_candidate(plans@, i) ==> !worse(
                    plans@[i],
                    plans@[r as int],
                ),
            forall|i: int|
                0 <= i < r && #[trigger] is_candidate(plans@, i) ==> worse(
                    plans@[r as int],
                    plans@[i],
                ),
    {
        let mut prefer_unselected = false;
        let mut k: usize = 0;
        while k < plans.len()
            invariant
                k <= plans@.len(),
                prefer_unselected == exists|t: int| 0 <= t < k && !(#[trigger] plans@[t]).selected,
            decreases plans.len() - k,
        {
            if !plans[k].selected {
                prefer_unselected = true;
            }
            k = k + 1;
        }
        let mut worst_index: Option<usize> = None;
        let mut i: usize = 0;
        while i < plans.len()
            invariant
                0 < plans@.len(),
                i <= plans@.len(),
                prefer_unselected == exists|t: int| 0 <= t < plans@.len() && !(#[trigger] plans@[t]).selected,
                worst_index is None ==> forall|t: int| 0 <= t < i ==> !(#[trigger] is_candidate(plans@, t)),
                worst_index matches Some(w) ==> {
                    &&& w < i
                    &&& is_candidate(plans@, w as int)
                    &&& forall|t: int|
                        0 <= t < i && #[trigger] is_candidate(plans@, t) ==> !worse(
                            plans@[t],
                            plans@[w as int],
                        )
                    &&& forall|t: int|
                        0 <= t < w && #[trigger] is_candidate(plans@, t) ==> worse(
                            plans@[w as int],
                            plans@[t],
                        )
                },
            decreases plans.len() - i,
        {
            if prefer_unselected && plans[i].selected {
                i = i + 1;
                continue;
            }
            match worst_index {
                None => {
                    worst_index = Some(i);
                },
                Some(w) => {
                    if plan_is_worse(plans[i], plans[w]) {
                        worst_index = Some(i);
                    }
                },
            }
            i = i + 1;
        }
        match worst_index {
            Some(w) => w,
            None => {
                proof {
                    if prefer_unselected {
                        let t = choose|t: int| 0 <= t < plans@.len() && !(#[trigger] plans@[t]).selected;
                        assert(is_candidate(plans@, t));
                    } else {
                        assert(is_candidate(plans@, 0));
                    }
                }
                vstd::pervasive::unreached()
            },
        }
    }
}


pub const KEEP_LAST_SELECTED_STRATEGY_NAME: &'static str = "KeepLastSelected";

pub const BEST_SCORE_STRATEGY_NAME: &'static str = "BestScore";

pub const SELECT_RANDOM_STRATEGY_NAME: &'static str = "SelectRandom";

pub const WORST_SCORE_STRATEGY_NAME: &'static str = "WorstScore";

pub const RE_ROUTE_STRATEGY_NAME: &'static str = "ReRoute";

/// The selectors that come with the simulation.
#[derive(Debug, Clone, Copy, PartialEq, Eq, Structural)]
pub enum DefaultSelector {
    KeepLastSelected,
    BestScore,
    SelectRandom,
    WorstScore,
}

/// The name of a default selector.
pub open spec fn selector_name(s: DefaultSelector) -> Seq<char> {
    match s {
        DefaultSelector::KeepLastSelected => "KeepLastSelected"@,
        DefaultSelector::BestScore => "BestScore"@,
        DefaultSelector::SelectRandom => "SelectRandom"@,
        DefaultSelector::WorstScore => "WorstScore"@,
    }
}

/// No two default selectors share a name, so parsing the name of a selector gives
/// that selector back.
pub proof fn lemma_selector_names_distinct(a: DefaultSelector, b: DefaultSelector)
    requires
        selector_name(a) == selector_name(b),
    ensures
        a == b,
{
    reveal_strlit("KeepLastSelected");
    reveal_strlit("BestScore");
    reveal_strlit("SelectRandom");
    reveal_strlit("WorstScore");
    assert(selector_name(a).len() == selector_name(b).len());
    match a {
        DefaultSelector::KeepLastSelected => assert(selector_name(a).len() == 16),
        DefaultSelector::BestScore => assert(selector_name(a).len() == 9),
        DefaultSelector::SelectRandom => assert(selector_name(a).len() == 12),
        DefaultSelector::WorstScore => assert(selector_name(a).len() == 10),
    }
    match b {
        DefaultSelector::KeepLastSelected => assert(selector_name(b).len() == 16),
        DefaultSelector::BestScore => assert(selector_name(b).len() == 9),
        DefaultSelector::SelectRandom => assert(selector_name(b).len() == 12),
        DefaultSelector::WorstScore => assert(selector_name(b).len() == 10),
    }
}

/// Whether two strings hold the same characters.
fn same_text(a: &str, b: &str) -> (r: bool)
    ensures
        r == (a@ == b@),
{
    a.to_owned() == b.to_owned()
}

impl DefaultSelector {
    /// The name of the selector.
    pub fn as_str(&self) -> (r: &'static str)
        ensures
            r@ == selector_name(*self),
    {
        match self {
            DefaultSelector::KeepLastSelected => KEEP_LAST_SELECTED_STRATEGY_NAME,
            DefaultSelector::BestScore => BEST_SCORE_STRATEGY_NAME,
            DefaultSelector::SelectRandom => SELECT_RANDOM_STRATEGY_NAME,
            DefaultSelector::WorstScore => WORST_SCORE_STRATEGY_NAME,
        }
    }

    /// The selector with the given name; an error naming the value when there is none.
    pub fn from_str(value: &str) -> (r: Result<Self, String>)
        ensures
            r matches Ok(s) ==> selector_name(s) == value@,
            r is Err <==> forall|s: DefaultSelector| selector_name(s) != value@,
    {
        if same_text(value, KEEP_LAST_SELECTED_STRATEGY_NAME) {
            assert(selector_name(DefaultSelector::KeepLastSelected) == value@);
            Ok(DefaultSelector::KeepLastSelected)
        } else if same_text(value, BEST_SCORE_STRATEGY_NAME) {
            assert(selector_name(DefaultSelector::BestScore) == value@);
            Ok(DefaultSelector::BestScore)
        } else if same_text(value, SELECT_RANDOM_STRATEGY_NAME) {
            assert(selector_name(DefaultSelector::SelectRandom) == value@);
            Ok(DefaultSelector::SelectRandom)
        } else if same_text(value, WORST_SCORE_STRATEGY_NAME) {
            assert(selector_name(DefaultSelector::WorstScore) == value@);
            Ok(DefaultSelector::WorstScore)
        } else {
            proof {
                assert forall|s: DefaultSelector| selector_name(s) != value@ by {
                    match s {
                        DefaultSelector::KeepLastSelected => {},
                        DefaultSelector::BestScore => {},
                        DefaultSelector::SelectRandom => {},
                        DefaultSelector::WorstScore => {},
                    }
                }
            }
            let mut message = String::from_str("Unknown DefaultSelector: ");
            message.append(value);
            Err(message)
        }
    }
}

/// The strategies that come with the simulation besides the selectors.
#[derive(Debug, Clone, Copy, PartialEq, Eq, Structural)]
pub enum DefaultStrategy {
    ReRoute,
}

impl DefaultStrategy {
    /// The name of the strategy.
    pub fn as_str(self) -> (r: &'static str)
        ensures
            r@ == "ReRoute"@,
    {
        match self {
            DefaultStrategy::ReRoute => RE_ROUTE_STRATEGY_NAME,
        }
    }

    /// The strategy with the given name; an error naming the value when there is none.
    pub fn from_str(value: &str) -> (r: Result<Self, String>)
        ensures
            r is Ok <==> value@ == "ReRoute"@,
    {
        if same_text(value, RE_ROUTE_STRATEGY_NAME) {
            Ok(DefaultStrategy::ReRoute)
        } else {
            let mut message = String::from_str("Unknown DefaultStrategy: ");
            message.append(value);
            Err(message)
        }
    }
}

} // verus!
