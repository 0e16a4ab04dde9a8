//! The two solvers: value iteration and policy iteration.
//!
//! Neither is known to settle on every input, so each takes a budget and
//! says so when the budget runs out.
use crate::bellman::rows;
use crate::fixed::{all_in_range, is_fraction, magnitude};
use crate::world::{Action, State, World};
use vstd::prelude::*;

verus! {

/// The largest signed change `after[i] - before[i]` over the first `k` cells,
/// for `k` of at least one. A change is not taken by its magnitude: a fall
/// counts as less than any rise.
pub open spec fn largest_change(after: Seq<i64>, before: Seq<i64>, k: nat) -> int
    decreases k,
{
    if k <= 1 {
        after[0] - before[0]
    } else {
        let rest = largest_change(after, before, (k - 1) as nat);
        let last = after[k - 1] - before[k - 1];
        if last > rest {
            last
        } else {
            rest
        }
    }
}

/// A sweep has settled when the largest signed change is smaller in
/// magnitude than `epsilon`. Without cells there is no largest change, and
/// nothing settles.
pub open spec fn settled(after: Seq<i64>, before: Seq<i64>, epsilon: int) -> bool {
    after.len() > 0 && magnitude(largest_change(after, before, after.len())) < epsilon
}

/// The smallest entry, or `i64::MAX` where there is none.
pub open spec fn least(values: Seq<i64>) -> int
    decreases values.len(),
{
    if values.len() == 0 {
        i64::MAX as int
    } else {
        let rest = least(values.drop_last());
        if values.last() < rest {
            values.last() as int
        } else {
            rest
        }
    }
}

/// The largest entry, or `i64::MIN` where there is none.
pub open spec fn greatest(values: Seq<i64>) -> int
    decreases values.len(),
{
    if values.len() == 0 {
        i64::MIN as int
    } else {
        let rest = greatest(values.drop_last());
        if values.last() > rest {
            values.last() as int
        } else {
            rest
        }
    }
}

/// Whether the sweep from `before` to `after` has settled.
pub fn has_settled(after: &Vec<i64>, before: &Vec<i64>, epsilon: i64) -> (done: bool)
    requires
        after@.len() == before@.len(),
        all_in_range(after@),
        all_in_range(before@),
    ensures
        done == settled(after@, before@, epsilon as int),
{
    if after.len() == 0 {
        return false;
    }
    let mut max_delta: i64 = after[0] - before[0];
    let mut i: usize = 1;
    while i < after.len()
        invariant
            after@.len() == before@.len(),
            all_in_range(after@),
            all_in_range(before@),
            1 <= i <= after@.len(),
            max_delta == largest_change(after@, before@, i as nat),
            -2 * crate::fixed::LIMIT <= max_delta <= 2 * crate::fixed::LIMIT,
        decreases after@.len() - i,
    {
        let delta: i64 = after[i] - before[i];
        if delta > max_delta {
            max_delta = delta;
        }
        i += 1;
    }
    epsilon > 0 && max_delta < epsilon && -epsilon < max_delta
}

/// What a solver found: the policy, the values and Q-values it rests on, the
/// range of the values, and how many iterations it took.
pub struct Analysis {
    pub policy: Vec<Action>,
    pub values: Vec<i64>,
    pub q_values: Vec<[i64; 4]>,
    pub min_value: i64,
    pub max_value: i64,
    pub iterations: usize,
}

impl Analysis {
    /// The smallest of the values, or `i64::MAX` where there is none.
    pub fn min(values: &Vec<i64>) -> (min_value: i64)
        ensures
            min_value == least(values@),
            forall|i: int| 0 <= i < values@.len() ==> min_value <= values@[i],
            values@.len() > 0 ==> exists|i: int| 0 <= i < values@.len() && values@[i] == min_value,
            values@.len() == 0 ==> min_value == i64::MAX,
    {
        let mut min_value: i64 = i64::MAX;
        let mut i: usize = 0;
        assert(values@.take(0) =~= Seq::<i64>::empty());
        while i < values.len()
            invariant
                i <= values@.len(),
                min_value == least(values@.take(i as int)),
                forall|k: int| 0 <= k < i ==> min_value <= values@[k],
                i > 0 ==> exists|k: int| 0 <= k < i && values@[k] == min_value,
                i == 0 ==> min_value == i64::MAX,
            decreases values@.len() - i,
        {
            assert(values@.take(i + 1).drop_last() =~= values@.take(i as int));
            if values[i] < min_value {
                min_value = values[i];
            }
            i += 1;
        }
        assert(values@.take(values@.len() as int) =~= values@);
        min_value
    }

    /// The largest of the values, or `i64::MIN` where there is none.
    pub fn max(values: &Vec<i64>) -> (max_value: i64)
        ensures
            max_value == greatest(values@),
            forall|i: int| 0 <= i < values@.len() ==> max_value >= values@[i],
            values@.len() > 0 ==> exists|i: int| 0 <= i < values@.len() && values@[i] == max_value,
            values@.len() == 0 ==> max_value == i64::MIN,
    {
        let mut max_value: i64 = i64::MIN;
        let mut i: usize = 0;
        assert(values@.take(0) =~= Seq::<i64>::empty());
        while i < values.len()
            invariant
                i <= values@.len(),
                max_value == greatest(values@.take(i as int)),
                forall|k: int| 0 <= k < i ==> max_value >= values@[k],
                i > 0 ==> exists|k: int| 0 <= k < i && values@[k] == max_value,
                i == 0 ==> max_value == i64::MIN,
            decreases values@.len() - i,
        {
            assert(values@.take(i + 1).drop_last() =~= values@.take(i as int));
            if values[i] > max_value {
                max_value = values[i];
            }
            i += 1;
        }
        assert(values@.take(values@.len() as int) =~= values@);
        max_value
    }
}

/// Where policy iteration stands after some rounds.
pub struct Round {
    pub policy: Seq<Action>,
    pub values: Seq<i64>,
    pub q: Seq<Seq<i64>>,
    /// The round's improvement left the policy as it was.
    pub stable: bool,
}

impl World {
    /// The value zero for every cell.
    pub open spec fn zeros(&self) -> Seq<i64> {
        Seq::new(self.spec_area() as nat, |i: int| 0i64)
    }

    /// Four zero Q-values for every cell.
    pub open spec fn zero_rows(&self) -> Seq<Seq<i64>> {
        Seq::new(self.spec_area() as nat, |i: int| seq![0i64, 0i64, 0i64, 0i64])
    }

    /// The values after `n` optimality sweeps that began at zero.
    pub open spec fn swept_values(&self, discount: int, noise: int, n: nat) -> Seq<i64>
        decreases n,
    {
        if n == 0 {
            self.zeros()
        } else {
            self.optimality_update(
                discount,
                noise,
                self.swept_values(discount, noise, (n - 1) as nat),
            )
        }
    }

    /// The Q-values after `n` optimality sweeps that began at zero.
    pub open spec fn swept_q(&self, discount: int, noise: int, n: nat) -> Seq<Seq<i64>>
        decreases n,
    {
        if n == 0 {
            self.zero_rows()
        } else {
            self.optimality_q(
                discount,
                noise,
                self.swept_values(discount, noise, (n - 1) as nat),
                self.swept_q(discount, noise, (n - 1) as nat),
            )
        }
    }

    /// Value iteration may stop after sweep `n`: it is not the first sweep,
    /// which only brings the rewards in, and it has settled.
    pub open spec fn sweep_settled(&self, discount: int, noise: int, epsilon: int, n: nat) -> bool {
        n > 1 && settled(
            self.swept_values(discount, noise, n),
            self.swept_values(discount, noise, (n - 1) as nat),
            epsilon,
        )
    }

    /// The values after `n` expectation sweeps under `policy` that began at
    /// `start`.
    pub open spec fn evaluated_values(
        &self,
        discount: int,
        noise: int,
        policy: Seq<Action>,
        start: Seq<i64>,
        n: nat,
    ) -> Seq<i64>
        decreases n,
    {
        if n == 0 {
            start
        } else {
            self.expectation_update(
                discount,
                noise,
                policy,
                self.evaluated_values(discount, noise, policy, start, (n - 1) as nat),
            )
        }
    }

    /// Policy evaluation may stop after sweep `n`.
    pub open spec fn evaluation_settled(
        &self,
        discount: int,
        noise: int,
        epsilon: int,
        policy: Seq<Action>,
        start: Seq<i64>,
        n: nat,
    ) -> bool {
        n > 1 && settled(
            self.evaluated_values(discount, noise, policy, start, n),
            self.evaluated_values(discount, noise, policy, start, (n - 1) as nat),
            epsilon,
        )
    }

    /// Policy evaluation stops after sweep `n` and after none before it.
    pub open spec fn evaluation_stops_at(
        &self,
        discount: int,
        noise: int,
        epsilon: int,
        policy: Seq<Action>,
        start: Seq<i64>,
        n: nat,
    ) -> bool {
        &&& self.evaluation_settled(discount, noise, epsilon, policy, start, n)
        &&& forall|m: nat|
            m < n ==> !self.evaluation_settled(discount, noise, epsilon, policy, start, m)
    }

    /// The values that policy evaluation ends with, if it stops within `cap`
    /// sweeps.
    pub open spec fn evaluation(
        &self,
        discount: int,
        noise: int,
        epsilon: int,
        policy: Seq<Action>,
        start: Seq<i64>,
        cap: nat,
    ) -> Option<Seq<i64>> {
        if exists|n: nat|
            n <= cap && self.evaluation_stops_at(discount, noise, epsilon, policy, start, n) {
            let n = choose|n: nat|
                n <= cap && self.evaluation_stops_at(discount, noise, epsilon, policy, start, n);
            Some(self.evaluated_values(discount, noise, policy, start, n))
        } else {
            None
        }
    }

    /// Where policy iteration stands after `r` rounds, each an evaluation of
    /// at most `cap` sweeps and an improvement; nowhere once an evaluation
    /// has not stopped. It starts from the default policy and zero values.
    pub open spec fn round(
        &self,
        discount: int,
        noise: int,
        epsilon: int,
        cap: nat,
        r: nat,
    ) -> Option<Round>
        decreases r,
    {
        if r == 0 {
            Some(
                Round {
                    policy: self.default_policy(),
                    values: self.zeros(),
                    q: self.zero_rows(),
                    stable: false,
                },
            )
        } else {
            match self.round(discount, noise, epsilon, cap, (r - 1) as nat) {
                None => None,
                Some(before) => match self.evaluation(
                    discount,
                    noise,
                    epsilon,
                    before.policy,
                    before.values,
                    cap,
                ) {
                    None => None,
                    Some(values) => {
                        let policy = self.improved_policy(discount, noise, before.policy, values);
                        Some(
                            Round {
                                policy,
                                values,
                                q: self.improved_q(
                                    discount,
                                    noise,
                                    before.policy,
                                    values,
                                    before.q,
                                ),
                                stable: Self::is_stable(before.policy, policy),
                            },
                        )
                    },
                },
            }
        }
    }

    /// Policy iteration may stop after round `r`.
    pub open spec fn round_stable(
        &self,
        discount: int,
        noise: int,
        epsilon: int,
        cap: nat,
        r: nat,
    ) -> bool {
        self.round(discount, noise, epsilon, cap, r) matches Some(found) && found.stable
    }

    /// Once policy iteration is nowhere, it stays nowhere.
    pub proof fn lemma_round_stays_nowhere(
        &self,
        discount: int,
        noise: int,
        epsilon: int,
        cap: nat,
        r: nat,
        later: nat,
    )
        requires
            self.round(discount, noise, epsilon, cap, r) is None,
            r <= later,
        ensures
            self.round(discount, noise, epsilon, cap, later) is None,
        decreases later,
    {
        if r < later {
            self.lemma_round_stays_nowhere(discount, noise, epsilon, cap, r, (later - 1) as nat);
        }
    }

    /// The vector of one zero per cell.
    fn zero_values(&self) -> (values: Vec<i64>)
        requires
            self.wf(),
        ensures
            values@ == self.zeros(),
            all_in_range(values@),
    {
        let values: Vec<i64> = vec![0i64; self.area()];
        assert(values@ =~= self.zeros());
        values
    }

    /// The table of four zeros per cell.
    fn zero_q_values(&self) -> (q_values: Vec<[i64; 4]>)
        requires
            self.wf(),
        ensures
            rows(q_values@) == self.zero_rows(),
            q_values@.len() == self.spec_area(),
    {
        let q_values: Vec<[i64; 4]> = vec![[0i64; 4]; self.area()];
        assert forall|i: int| 0 <= i < q_values@.len() implies q_values@[i]@ == seq![
            0i64,
            0i64,
            0i64,
            0i64,
        ] by {
            assert(q_values@[i]@ =~= seq![0i64, 0i64, 0i64, 0i64]);
        }
        assert(rows(q_values@) =~= self.zero_rows());
        q_values
    }

    /// Value iteration: optimality sweeps from zero values until a sweep
    /// after the first has settled, then the greedy policy for the Q-values
    /// of that sweep. Gives up after `max_sweeps` sweeps.
    pub fn value_iteration(
        &mut self,
        discount: i64,
        noise: i64,
        epsilon: i64,
        max_sweeps: usize,
    ) -> (found: Option<Analysis>)
        requires
            old(self).wf(),
            is_fraction(discount as int),
            is_fraction(noise as int),
        ensures
            *final(self) == *old(self),
            found matches Some(a) ==> {
                let n = a.iterations as nat;
                &&& n <= max_sweeps
                &&& old(self).sweep_settled(discount as int, noise as int, epsilon as int, n)
                &&& forall|m: nat|
                    m < n ==> !old(self).sweep_settled(
                        discount as int,
                        noise as int,
                        epsilon as int,
                        m,
                    )
                &&& a.values@ == old(self).swept_values(discount as int, noise as int, n)
                &&& rows(a.q_values@) == old(self).swept_q(discount as int, noise as int, n)
                &&& a.policy@ == old(self).greedy_policy(rows(a.q_values@))
                &&& a.min_value == least(a.values@)
                &&& a.max_value == greatest(a.values@)
            },
            found is None ==> forall|n: nat|
                n <= max_sweeps ==> !old(self).sweep_settled(
                    discount as int,
                    noise as int,
                    epsilon as int,
                    n,
                ),
            found matches Some(a) ==> forall|s: State|
                old(self).in_bounds(s) && !old(self).is_valid(s) ==> a.values@[#[trigger] old(
                    self,
                ).index_of(s)] == 0 && a.policy@[old(self).index_of(s)] == Action::Nothing,
            found matches Some(a) ==> forall|s: State|
                old(self).is_valid(s) && old(self).is_exit(s) ==> a.values@[#[trigger] old(
                    self,
                ).index_of(s)] == old(self).spec_reward(s, Action::Exit) && a.policy@[old(
                    self,
                ).index_of(s)] == Action::Exit,
    {
        let mut values = self.zero_values();
        let mut q_values = self.zero_q_values();
        let mut iterations: usize = 0;
        while iterations < max_sweeps
            invariant
                *self == *old(self),
                self.wf(),
                is_fraction(discount as int),
                is_fraction(noise as int),
                iterations <= max_sweeps,
                values@ == self.swept_values(discount as int, noise as int, iterations as nat),
                rows(q_values@) == self.swept_q(discount as int, noise as int, iterations as nat),
                values@.len() == self.spec_area(),
                q_values@.len() == self.spec_area(),
                all_in_range(values@),
                forall|m: nat|
                    m <= iterations ==> !self.sweep_settled(
                        discount as int,
                        noise as int,
                        epsilon as int,
                        m,
                    ),
            decreases max_sweeps - iterations,
        {
            iterations += 1;
            let temp = self.value_bellman_update(discount, noise, &values, &mut q_values);
            let done = has_settled(&temp, &values, epsilon) && iterations > 1;
            values = temp;
            if done {
                let policy = self.generate_policy(&q_values);
                let min_value = Analysis::min(&values);
                let max_value = Analysis::max(&values);
                proof {
                    assert forall|s: State|
                        self.in_bounds(s) && !self.is_valid(s) implies values@[#[trigger] self.index_of(
                        s,
                    )] == 0 && policy@[self.index_of(s)] == Action::Nothing by {
                        self.lemma_index_of(s);
                    }
                    assert forall|s: State|
                        self.is_valid(s) && self.is_exit(s) implies values@[#[trigger] self.index_of(
                        s,
                    )] == self.spec_reward(s, Action::Exit) && policy@[self.index_of(s)]
                        == Action::Exit by {
                        self.lemma_index_of(s);
                    }
                }
                return Some(Analysis { policy, values, q_values, min_value, max_value, iterations });
            }
        }
        None
    }

    /// Policy evaluation: expectation sweeps under `policy` from `values`
    /// until a sweep after the first has settled. Gives up after
    /// `max_sweeps` sweeps.
    pub fn policy_evaluation(
        &mut self,
        discount: i64,
        noise: i64,
        epsilon: i64,
        policy: &Vec<Action>,
        values: &Vec<i64>,
        max_sweeps: usize,
    ) -> (found: Option<Vec<i64>>)
        requires
            old(self).wf(),
            policy@.len() == old(self).spec_area(),
            values@.len() == old(self).spec_area(),
            all_in_range(values@),
            is_fraction(discount as int),
            is_fraction(noise as int),
        ensures
            *final(self) == *old(self),
            found matches Some(v) ==> Some(v@) == old(self).evaluation(
                discount as int,
                noise as int,
                epsilon as int,
                policy@,
                values@,
                max_sweeps as nat,
            ),
            found is None ==> old(self).evaluation(
                discount as int,
                noise as int,
                epsilon as int,
                policy@,
                values@,
                max_sweeps as nat,
            ) is None,
            found is Some <==> exists|n: nat|
                n <= max_sweeps && old(self).evaluation_stops_at(
                    discount as int,
                    noise as int,
                    epsilon as int,
                    policy@,
                    values@,
                    n,
                ),
            found matches Some(v) ==> v@.len() == old(self).spec_area() && all_in_range(v@),
            found matches Some(v) ==> forall|s: State|
                old(self).in_bounds(s) && policy@[#[trigger] old(self).index_of(s)]
                    == Action::Nothing ==> v@[old(self).index_of(s)] == 0,
            found matches Some(v) ==> forall|s: State|
                old(self).in_bounds(s) && policy@[#[trigger] old(self).index_of(s)] == Action::Exit
                    ==> v@[old(self).index_of(s)] == old(self).spec_reward(s, Action::Exit),
    {
        let mut result = values.clone();
        assert(result@ =~= values@);
        let mut iterations: usize = 0;
        while iterations < max_sweeps
            invariant
                *self == *old(self),
                self.wf(),
                policy@.len() == self.spec_area(),
                values@.len() == self.spec_area(),
                is_fraction(discount as int),
                is_fraction(noise as int),
                iterations <= max_sweeps,
                result@ == self.evaluated_values(
                    discount as int,
                    noise as int,
                    policy@,
                    values@,
                    iterations as nat,
                ),
                result@.len() == self.spec_area(),
                all_in_range(result@),
                forall|m: nat|
                    m <= iterations ==> !self.evaluation_settled(
                        discount as int,
                        noise as int,
                        epsilon as int,
                        policy@,
                        values@,
                        m,
                    ),
            decreases max_sweeps - iterations,
        {
            iterations += 1;
            let temp = self.policy_bellman_update(discount, noise, policy, &result);
            let done = has_settled(&temp, &result, epsilon) && iterations > 1;
            result = temp;
            if done {
                proof {
                    let n = iterations as nat;
                    assert(self.evaluation_stops_at(
                        discount as int,
                        noise as int,
                        epsilon as int,
                        policy@,
                        values@,
                        n,
                    ));
                    let chosen = choose|c: nat|
                        c <= max_sweeps && self.evaluation_stops_at(
                            discount as int,
                            noise as int,
                            epsilon as int,
                            policy@,
                            values@,
                            c,
                        );
                    assert(chosen == n);
                }
                return Some(result);
            }
        }
        None
    }

    /// Policy iteration: from the default policy and zero values, rounds of
    /// evaluation and improvement until an improvement leaves the policy as
    /// it was. Gives up after `max_rounds` rounds, or when an evaluation does
    /// not stop within `max_sweeps` sweeps.
    pub fn policy_iteration(
        &mut self,
        discount: i64,
        noise: i64,
        epsilon: i64,
        max_sweeps: usize,
        max_rounds: usize,
    ) -> (found: Option<Analysis>)
        requires
            old(self).wf(),
            is_fraction(discount as int),
            is_fraction(noise as int),
        ensures
            *final(self) == *old(self),
            found matches Some(a) ==> {
                let r = a.iterations as nat;
                &&& r <= max_rounds
                &&& old(self).round(
                    discount as int,
                    noise as int,
                    epsilon as int,
                    max_sweeps as nat,
                    r,
                ) == Some(
                    Round {
                        policy: a.policy@,
                        values: a.values@,
                        q: rows(a.q_values@),
                        stable: true,
                    },
                )
                &&& forall|m: nat|
                    m < r ==> !old(self).round_stable(
                        discount as int,
                        noise as int,
                        epsilon as int,
                        max_sweeps as nat,
                        m,
                    )
                &&& a.min_value == least(a.values@)
                &&& a.max_value == greatest(a.values@)
            },
            found is None ==> forall|r: nat|
                r <= max_rounds ==> !old(self).round_stable(
                    discount as int,
                    noise as int,
                    epsilon as int,
                    max_sweeps as nat,
                    r,
                ),
            found matches Some(a) ==> forall|s: State|
                old(self).in_bounds(s) && !old(self).is_valid(s) ==> a.values@[#[trigger] old(
                    self,
                ).index_of(s)] == 0 && a.policy@[old(self).index_of(s)] == Action::Nothing,
            found matches Some(a) ==> forall|s: State|
                old(self).is_valid(s) && old(self).is_exit(s) ==> a.values@[#[trigger] old(
                    self,
                ).index_of(s)] == old(self).spec_reward(s, Action::Exit) && a.policy@[old(
                    self,
                ).index_of(s)] == Action::Exit,
    {
        let mut policy = self.generate_random_policy();
        let mut values = self.zero_values();
        let mut q_values = self.zero_q_values();
        let mut rounds: usize = 0;
        while rounds < max_rounds
            invariant
                *self == *old(self),
                self.wf(),
                is_fraction(discount as int),
                is_fraction(noise as int),
                rounds <= max_rounds,
                self.suits(policy@),
                values@.len() == self.spec_area(),
                q_values@.len() == self.spec_area(),
                all_in_range(values@),
                self.round(
                    discount as int,
                    noise as int,
                    epsilon as int,
                    max_sweeps as nat,
                    rounds as nat,
                ) matches Some(now) && now.policy == policy@ && now.values == values@ && now.q
                    == rows(q_values@),
                forall|m: nat|
                    m <= rounds ==> !self.round_stable(
                        discount as int,
                        noise as int,
                        epsilon as int,
                        max_sweeps as nat,
                        m,
                    ),
            decreases max_rounds - rounds,
        {
            rounds += 1;
            let ghost before = policy@;
            match self.policy_evaluation(discount, noise, epsilon, &policy, &values, max_sweeps) {
                None => {
                    proof {
                        assert forall|r: nat| r <= max_rounds implies !self.round_stable(
                            discount as int,
                            noise as int,
                            epsilon as int,
                            max_sweeps as nat,
                            r,
                        ) by {
                            if r >= rounds {
                                self.lemma_round_stays_nowhere(
                                    discount as int,
                                    noise as int,
                                    epsilon as int,
                                    max_sweeps as nat,
                                    rounds as nat,
                                    r,
                                );
                            }
                        }
                    }
                    return None;
                },
                Some(evaluated) => {
                    values = evaluated;
                },
            }
            let (improved, stable) = self.policy_improvement(
                discount,
                noise,
                &policy,
                &values,
                &mut q_values,
            );
            policy = improved;
            if stable {
                let min_value = Analysis::min(&values);
                let max_value = Analysis::max(&values);
                proof {
                    assert forall|s: State|
                        self.in_bounds(s) && !self.is_valid(s) implies values@[#[trigger] self.index_of(
                        s,
                    )] == 0 && policy@[self.index_of(s)] == Action::Nothing by {
                        self.lemma_index_of(s);
                        assert(before[self.index_of(s)] == Action::Nothing);
                    }
                    assert forall|s: State|
                        self.is_valid(s) && self.is_exit(s) implies values@[#[trigger] self.index_of(
                        s,
                    )] == self.spec_reward(s, Action::Exit) && policy@[self.index_of(s)]
                        == Action::Exit by {
                        self.lemma_index_of(s);
                        assert(before[self.index_of(s)] == Action::Exit);
                    }
                }
                return Some(
                    Analysis { policy, values, q_values, min_value, max_value, iterations: rounds },
                );
            }
        }
        None
    }
}

} // verus!
