//! Hyperparameter search decisions: the candidate grid, the fold count,
//! averaging fold scores, and picking the best candidate.
use vstd::prelude::*;
use crate::decimal::SCALE;

verus! {

/// Why a search could not run or found nothing.
#[derive(Clone, Copy, Debug, PartialEq, Eq, Structural)]
pub enum SelectError {
    /// The fold count or a grid value is out of range.
    Configuration,
    /// No candidate produced a score.
    NoViableModel,
}

/// One elastic-net configuration, both values in millionths: the penalty
/// strength, and the share of the penalty that is L1 (zero is pure ridge,
/// one unit is pure lasso).
#[derive(Clone, Copy, Debug, PartialEq, Eq, Structural)]
pub struct Candidate {
    pub penalty: i64,
    pub l1_ratio: i64,
}

/// Fold count used where the caller names none.
pub const DEFAULT_FOLDS: usize = 10;

/// Penalty strengths searched where the caller names none, in millionths:
/// 0.01, 0.05, 0.1, 0.2, 0.3, 0.5, 1, 1.1, 1.2, 1.5 and 2.
pub fn default_penalties() -> (r: Vec<i64>)
    ensures
        r@ == seq![
            10000i64,
            50000,
            100000,
            200000,
            300000,
            500000,
            1000000,
            1100000,
            1200000,
            1500000,
            2000000,
        ],
{
    let r = vec![
        10000i64,
        50000,
        100000,
        200000,
        300000,
        500000,
        1000000,
        1100000,
        1200000,
        1500000,
        2000000,
    ];
    assert(r@ =~= seq![
        10000i64,
        50000,
        100000,
        200000,
        300000,
        500000,
        1000000,
        1100000,
        1200000,
        1500000,
        2000000,
    ]);
    r
}

/// L1 ratios searched where the caller names none, in millionths: 0, 0.1,
/// 0.25, 0.5, 0.75, 0.9 and 1.
pub fn default_l1_ratios() -> (r: Vec<i64>)
    ensures
        r@ == seq![0i64, 100000, 250000, 500000, 750000, 900000, 1000000],
{
    let r = vec![0i64, 100000, 250000, 500000, 750000, 900000, 1000000];
    assert(r@ =~= seq![0i64, 100000, 250000, 500000, 750000, 900000, 1000000]);
    r
}

/// A fold count is usable when there are at least two folds and no more
/// folds than samples.
pub fn check_fold_count(n_samples: usize, k: usize) -> (r: Result<(), SelectError>)
    ensures
        r is Ok <==> 2 <= k <= n_samples,
        r is Err ==> r == Err::<(), SelectError>(SelectError::Configuration),
{
    if k < 2 || k > n_samples {
        Err(SelectError::Configuration)
    } else {
        Ok(())
    }
}

pub open spec fn penalties_valid(p: Seq<i64>) -> bool {
    forall|i: int| 0 <= i < p.len() ==> #[trigger] p[i] >= 0
}

pub open spec fn ratios_valid(a: Seq<i64>) -> bool {
    forall|i: int| 0 <= i < a.len() ==> 0 <= #[trigger] a[i] <= SCALE
}

/// Every (penalty, l1 ratio) pair, penalties in the outer order and ratios in
/// the inner one, each in the order given.
pub fn candidate_grid(penalties: &Vec<i64>, l1_ratios: &Vec<i64>) -> (r: Result<
    Vec<Candidate>,
    SelectError,
>)
    requires
        penalties@.len() * l1_ratios@.len() <= usize::MAX,
    ensures
        r is Ok <==> penalties_valid(penalties@) && ratios_valid(l1_ratios@),
        r is Err ==> r->Err_0 == SelectError::Configuration,
        r matches Ok(v) ==> {
            &&& v@.len() == penalties@.len() * l1_ratios@.len()
            &&& forall|i: int, j: int|
                0 <= i < penalties@.len() && 0 <= j < l1_ratios@.len() ==> #[trigger] v@[i
                    * l1_ratios@.len() + j] == (Candidate {
                    penalty: penalties@[i],
                    l1_ratio: l1_ratios@[j],
                })
        },
{
    let np = penalties.len();
    let na = l1_ratios.len();
    let mut i: usize = 0;
    while i < np
        invariant
            i <= np == penalties@.len(),
            penalties_valid(penalties@.take(i as int)),
        decreases np - i,
    {
        if penalties[i] < 0 {
            assert(penalties@[i as int] < 0);
            return Err(SelectError::Configuration);
        }
        assert(penalties@.take(i + 1) =~= penalties@.take(i as int).push(penalties@[i as int]));
        i = i + 1;
    }
    assert(penalties@.take(np as int) =~= penalties@);
    let mut j: usize = 0;
    while j < na
        invariant
            j <= na == l1_ratios@.len(),
            ratios_valid(l1_ratios@.take(j as int)),
        decreases na - j,
    {
        if l1_ratios[j] < 0 || l1_ratios[j] > SCALE {
            assert(!(0 <= l1_ratios@[j as int] <= SCALE));
            return Err(SelectError::Configuration);
        }
        assert(l1_ratios@.take(j + 1) =~= l1_ratios@.take(j as int).push(l1_ratios@[j as int]));
        j = j + 1;
    }
    assert(l1_ratios@.take(na as int) =~= l1_ratios@);
    let mut v: Vec<Candidate> = Vec::new();
    let mut pi: usize = 0;
    while pi < np
        invariant
            pi <= np == penalties@.len(),
            na == l1_ratios@.len(),
            np * na <= usize::MAX,
            v@.len() == pi * na,
            forall|x: int, y: int|
                0 <= x < pi && 0 <= y < na ==> #[trigger] v@[x * na + y] == (Candidate {
                    penalty: penalties@[x],
                    l1_ratio: l1_ratios@[y],
                }),
        decreases np - pi,
    {
        let mut ai: usize = 0;
        while ai < na
            invariant
                pi < np == penalties@.len(),
                na == l1_ratios@.len(),
                np * na <= usize::MAX,
                ai <= na,
                v@.len() == pi * na + ai,
                forall|x: int, y: int|
                    0 <= x < pi && 0 <= y < na ==> #[trigger] v@[x * na + y] == (Candidate {
                        penalty: penalties@[x],
                        l1_ratio: l1_ratios@[y],
                    }),
                forall|y: int|
                    0 <= y < ai ==> #[trigger] v@[pi * na + y] == (Candidate {
                        penalty: penalties@[pi as int],
                        l1_ratio: l1_ratios@[y],
                    }),
            decreases na - ai,
        {
            proof {
                assert(pi * na + ai < np * na) by (nonlinear_arith)
                    requires
                        pi < np,
                        ai < na,
                ;
            }
            v.push(Candidate { penalty: penalties[pi], l1_ratio: l1_ratios[ai] });
            proof {
                assert forall|x: int, y: int| 0 <= x < pi && 0 <= y < na implies #[trigger] v@[x
                    * na + y] == (Candidate { penalty: penalties@[x], l1_ratio: l1_ratios@[y] }) by {
                    assert(x * na + y < pi * na) by (nonlinear_arith)
                        requires
                            x < pi,
                            y < na,
                    ;
                }
            }
            ai = ai + 1;
        }
        proof {
            assert forall|x: int, y: int| 0 <= x < pi + 1 && 0 <= y < na implies #[trigger] v@[x
                * na + y] == (Candidate { penalty: penalties@[x], l1_ratio: l1_ratios@[y] }) by {
                if x == pi {
                    assert(v@[pi * na + y] == v@[x * na + y]);
                }
            }
            assert((pi + 1) * na == pi * na + na) by (nonlinear_arith);
        }
        pi = pi + 1;
    }
    Ok(v)
}

/// How many folds produced a score.
pub open spec fn score_count(s: Seq<Option<i64>>) -> nat
    decreases s.len(),
{
    if s.len() == 0 {
        0
    } else {
        score_count(s.drop_last()) + if s.last() is Some {
            1nat
        } else {
            0nat
        }
    }
}

/// The sum of the scores that folds produced.
pub open spec fn score_sum(s: Seq<Option<i64>>) -> int
    decreases s.len(),
{
    if s.len() == 0 {
        0
    } else {
        score_sum(s.drop_last()) + match s.last() {
            Some(v) => v as int,
            None => 0,
        }
    }
}

/// The mean of the fold scores that exist, rounded down; none where no fold
/// produced a score.
pub open spec fn mean_of_scores(s: Seq<Option<i64>>) -> Option<int> {
    if score_count(s) == 0 {
        None
    } else {
        Some(score_sum(s) / (score_count(s) as int))
    }
}

/// Averages the scores of the folds that produced one, skipping the rest.
pub fn mean_score(fold_scores: &Vec<Option<i64>>) -> (r: Option<i64>)
    ensures
        match r {
            Some(m) => mean_of_scores(fold_scores@) == Some(m as int),
            None => mean_of_scores(fold_scores@) is None,
        },
{
    let n = fold_scores.len();
    let mut sum: i128 = 0;
    let mut count: u64 = 0;
    let mut i: usize = 0;
    while i < n
        invariant
            i <= n == fold_scores@.len(),
            count as int == score_count(fold_scores@.take(i as int)),
            sum as int == score_sum(fold_scores@.take(i as int)),
            count <= i,
            count * (i64::MIN as int) <= sum <= count * (i64::MAX as int),
        decreases n - i,
    {
        let ghost s = fold_scores@;
        assert(s.take(i + 1).drop_last() =~= s.take(i as int));
        match fold_scores[i] {
            Some(v) => {
                sum = sum + v as i128;
                count = count + 1;
            },
            None => {},
        }
        i = i + 1;
    }
    assert(fold_scores@.take(n as int) =~= fold_scores@);
    if count == 0 {
        return None;
    }
    let ghost c = count as int;
    let ghost q = sum as int / c;
    proof {
        vstd::arithmetic::div_mod::lemma_div_is_ordered(c * (i64::MIN as int), sum as int, c);
        vstd::arithmetic::div_mod::lemma_div_is_ordered(sum as int, c * (i64::MAX as int), c);
        vstd::arithmetic::div_mod::lemma_div_multiples_vanish(i64::MIN as int, c);
        vstd::arithmetic::div_mod::lemma_div_multiples_vanish(i64::MAX as int, c);
    }
    match sum.checked_div_euclid(count as i128) {
        Some(m) => Some(m as i64),
        None => None,
    }
}

/// Position `i` holds a score that no other score beats, and every earlier
/// score is strictly lower: the first best under strict improvement.
pub open spec fn is_first_best(s: Seq<Option<i64>>, i: int) -> bool {
    &&& 0 <= i < s.len()
    &&& s[i] is Some
    &&& forall|j: int| 0 <= j < s.len() && (#[trigger] s[j]) is Some ==> s[j]->0 <= s[i]->0
    &&& forall|j: int| 0 <= j < i && (#[trigger] s[j]) is Some ==> s[j]->0 < s[i]->0
}

pub open spec fn no_scores(s: Seq<Option<i64>>) -> bool {
    forall|j: int| 0 <= j < s.len() ==> (#[trigger] s[j]) is None
}

/// Picks the candidate with the highest score, the earliest among equals;
/// fails when no candidate has a score.
pub fn best_candidate(scores: &Vec<Option<i64>>) -> (r: Result<usize, SelectError>)
    ensures
        match r {
            Ok(i) => is_first_best(scores@, i as int),
            Err(e) => e == SelectError::NoViableModel && no_scores(scores@),
        },
{
    let n = scores.len();
    let mut best: Option<usize> = None;
    let mut i: usize = 0;
    while i < n
        invariant
            i <= n == scores@.len(),
            match best {
                None => forall|j: int| 0 <= j < i ==> (#[trigger] scores@[j]) is None,
                Some(b) => b < i && is_first_best(scores@.take(i as int), b as int),
            },
        decreases n - i,
    {
        let ghost s = scores@;
        assert(forall|j: int| 0 <= j < i ==> s.take(i + 1)[j] == #[trigger] s.take(i as int)[j]);
        match scores[i] {
            Some(v) => {
                match best {
                    None => {
                        best = Some(i);
                    },
                    Some(b) => {
                        assert(s.take(i as int)[b as int] == s[b as int]);
                        if v > scores[b].unwrap() {
                            best = Some(i);
                        }
                    },
                }
            },
            None => {},
        }
        i = i + 1;
    }
    assert(scores@.take(n as int) =~= scores@);
    match best {
        Some(b) => Ok(b),
        None => Err(SelectError::NoViableModel),
    }
}

/// The first-best position is unique, so the choice is fully determined by
/// the scores: ties go to the candidate seen first.
pub proof fn lemma_first_best_unique(s: Seq<Option<i64>>, i: int, j: int)
    requires
        is_first_best(s, i),
        is_first_best(s, j),
    ensures
        i == j,
{
    if i < j {
        assert(s[i] is Some);
    } else if j < i {
        assert(s[j] is Some);
    }
}

/// The cross-validated score of each candidate, from its fold scores.
pub open spec fn cv_scores(table: Seq<Vec<Option<i64>>>) -> Seq<Option<int>> {
    table.map_values(|row: Vec<Option<i64>>| mean_of_scores(row@))
}

/// The best candidate by cross-validated score, given each candidate's fold
/// scores in grid order; the cross-validated scores are returned too.
pub fn select_from_fold_scores(table: &Vec<Vec<Option<i64>>>) -> (r: (
    Vec<Option<i64>>,
    Result<usize, SelectError>,
))
    ensures
        r.0@.len() == table@.len(),
        forall|i: int|
            0 <= i < table@.len() ==> match #[trigger] r.0@[i] {
                Some(m) => mean_of_scores(table@[i]@) == Some(m as int),
                None => mean_of_scores(table@[i]@) is None,
            },
        match r.1 {
            Ok(i) => is_first_best(r.0@, i as int),
            Err(e) => e == SelectError::NoViableModel && no_scores(r.0@),
        },
{
    let mut means: Vec<Option<i64>> = Vec::new();
    let mut i: usize = 0;
    while i < table.len()
        invariant
            i <= table@.len(),
            means@.len() == i,
            forall|x: int|
                0 <= x < i ==> match #[trigger] means@[x] {
                    Some(m) => mean_of_scores(table@[x]@) == Some(m as int),
                    None => mean_of_scores(table@[x]@) is None,
                },
        decreases table@.len() - i,
    {
        let m = mean_score(&table[i]);
        means.push(m);
        i = i + 1;
    }
    let best = best_candidate(&means);
    (means, best)
}


/// The cross-validated scores as words (each mean lies between its fold
/// scores, so it fits one).
pub open spec fn cv_words(table: Seq<Vec<Option<i64>>>) -> Seq<Option<i64>> {
    cv_scores(table).map_values(
        |m: Option<int>| match m {
            Some(v) => Some(v as i64),
            None => None,
        },
    )
}

/// What the search asks for next.
#[derive(Clone, Copy, Debug, PartialEq, Eq, Structural)]
pub enum Step {
    /// Fit the candidate on every fold but `fold`, and score it on `fold`.
    Fit { candidate: Candidate, fold: usize },
    /// The search is over: fit the winner, at `index` in the grid, on the
    /// whole dataset.
    Refit { index: usize, candidate: Candidate },
    /// The search is over and found nothing.
    Failed(SelectError),
}

/// A grid search with k-fold cross-validation in progress: the fold scores
/// recorded so far, candidate by candidate in grid order.
pub struct Search {
    folds: usize,
    grid: Vec<Candidate>,
    table: Vec<Vec<Option<i64>>>,
    current: Vec<Option<i64>>,
}

impl Search {
    pub closed spec fn folds_spec(&self) -> nat {
        self.folds as nat
    }

    pub closed spec fn grid_spec(&self) -> Seq<Candidate> {
        self.grid@
    }

    /// The fold scores of every candidate whose folds are all scored.
    pub closed spec fn table_spec(&self) -> Seq<Vec<Option<i64>>> {
        self.table@
    }

    /// The fold scores of the candidate under way.
    pub closed spec fn current_spec(&self) -> Seq<Option<i64>> {
        self.current@
    }

    pub open spec fn wf(&self) -> bool {
        &&& self.folds_spec() >= 2
        &&& self.table_spec().len() <= self.grid_spec().len()
        &&& self.current_spec().len() < self.folds_spec()
        &&& self.table_spec().len() == self.grid_spec().len() ==> self.current_spec().len() == 0
        &&& forall|i: int|
            0 <= i < self.table_spec().len() ==> (#[trigger] self.table_spec()[i])@.len()
                == self.folds_spec()
    }


    /// The step that follows from what has been recorded.
    pub open spec fn step_spec(&self) -> Step {
        let cv = cv_words(self.table_spec());
        if self.table_spec().len() < self.grid_spec().len() {
            Step::Fit {
                candidate: self.grid_spec()[self.table_spec().len() as int],
                fold: self.current_spec().len() as usize,
            }
        } else if no_scores(cv) {
            Step::Failed(SelectError::NoViableModel)
        } else {
            let i = choose|i: int| #[trigger] is_first_best(cv, i);
            Step::Refit { index: i as usize, candidate: self.grid_spec()[i] }
        }
    }

    /// Starts a search over the grid of `penalties` by `l1_ratios` with `k`
    /// folds on `n_samples` samples. Fails as `check_fold_count` and
    /// `candidate_grid` do.
    pub fn start(n_samples: usize, k: usize, penalties: &Vec<i64>, l1_ratios: &Vec<i64>) -> (r:
        Result<Search, SelectError>)
        requires
            penalties@.len() * l1_ratios@.len() <= usize::MAX,
        ensures
            r is Ok <==> 2 <= k <= n_samples && penalties_valid(penalties@) && ratios_valid(
                l1_ratios@,
            ),
            r is Err ==> r->Err_0 == SelectError::Configuration,
            r matches Ok(s) ==> {
                &&& s.wf()
                &&& s.folds_spec() == k
                &&& s.table_spec().len() == 0
                &&& s.current_spec().len() == 0
                &&& s.grid_spec().len() == penalties@.len() * l1_ratios@.len()
                &&& forall|i: int, j: int|
                    0 <= i < penalties@.len() && 0 <= j < l1_ratios@.len() ==> #[trigger] s.grid_spec()[i
                        * l1_ratios@.len() + j] == (Candidate {
                        penalty: penalties@[i],
                        l1_ratio: l1_ratios@[j],
                    })
            },
    {
        match check_fold_count(n_samples, k) {
            Err(e) => {
                return Err(e);
            },
            Ok(()) => {},
        }
        let grid = match candidate_grid(penalties, l1_ratios) {
            Err(e) => {
                return Err(e);
            },
            Ok(g) => g,
        };
        Ok(Search { folds: k, grid, table: Vec::new(), current: Vec::new() })
    }

    pub fn folds(&self) -> (r: usize)
        ensures
            r == self.folds_spec(),
    {
        self.folds
    }

    pub fn grid(&self) -> (r: &Vec<Candidate>)
        ensures
            r@ == self.grid_spec(),
    {
        &self.grid
    }

    /// What to do next: fit the next fold of the candidate under way, or,
    /// once every candidate is scored, refit the first best one or fail.
    pub fn next_step(&self) -> (r: Step)
        requires
            self.wf(),
        ensures
            r == self.step_spec(),
            r matches Step::Refit { index, candidate } ==> {
                &&& self.table_spec().len() == self.grid_spec().len()
                &&& is_first_best(cv_words(self.table_spec()), index as int)
                &&& candidate == self.grid_spec()[index as int]
            },
    {
        if self.table.len() < self.grid.len() {
            return Step::Fit { candidate: self.grid[self.table.len()], fold: self.current.len() };
        }
        let (means, best) = select_from_fold_scores(&self.table);
        let ghost cv = cv_words(self.table@);
        assert(means@ =~= cv);
        match best {
            Ok(i) => {
                proof {
                    let j = choose|j: int| is_first_best(cv, j);
                    assert(is_first_best(cv, i as int));
                    lemma_first_best_unique(cv, i as int, j);
                }
                Step::Refit { index: i, candidate: self.grid[i] }
            },
            Err(e) => Step::Failed(e),
        }
    }

    /// Records the score of the fold last asked for, or `None` where fitting
    /// or scoring it failed. Does nothing once every candidate is scored.
    pub fn record(&mut self, score: Option<i64>)
        requires
            old(self).wf(),
        ensures
            final(self).wf(),
            final(self).folds_spec() == old(self).folds_spec(),
            final(self).grid_spec() == old(self).grid_spec(),
            old(self).table_spec().len() == old(self).grid_spec().len() ==> *final(self) == *old(self),
            old(self).table_spec().len() < old(self).grid_spec().len() ==> {
                let done = old(self).current_spec().push(score);
                if done.len() == old(self).folds_spec() {
                    &&& final(self).table_spec().len() == old(self).table_spec().len() + 1
                    &&& final(self).table_spec().take(old(self).table_spec().len() as int)
                        == old(self).table_spec()
                    &&& final(self).table_spec().last()@ == done
                    &&& final(self).current_spec().len() == 0
                } else {
                    &&& final(self).table_spec() == old(self).table_spec()
                    &&& final(self).current_spec() == done
                }
            },
    {
        if self.table.len() >= self.grid.len() {
            return;
        }
        self.current.push(score);
        if self.current.len() == self.folds {
            let mut done: Vec<Option<i64>> = Vec::new();
            std::mem::swap(&mut done, &mut self.current);
            let ghost before = self.table@;
            self.table.push(done);
            assert(self.table@.take(before.len() as int) =~= before);
        }
    }
}


/// Two searches over the same grid that recorded the same fold scores ask
/// for the same step, so a rerun on unchanged input selects the same
/// candidate.
pub proof fn lemma_search_reproducible(a: Search, b: Search)
    requires
        a.wf(),
        b.wf(),
        a.grid_spec() == b.grid_spec(),
        a.table_spec() == b.table_spec(),
        a.current_spec() == b.current_spec(),
    ensures
        a.step_spec() == b.step_spec(),
{
}

} // verus!
