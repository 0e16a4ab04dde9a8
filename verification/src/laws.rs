//! What holds of walls and exits under every sweep and every solver,
//! whatever the discount, the noise and the values are.
use crate::solver::Round;
use crate::world::{Action, State, World};
use vstd::prelude::*;

verus! {

impl World {
    /// An optimality sweep gives a wall the value zero and leaves its row of
    /// Q-values alone, and the greedy policy does nothing there.
    pub proof fn lemma_sweep_at_wall(
        &self,
        s: State,
        discount: int,
        noise: int,
        values: Seq<i64>,
        q: Seq<Seq<i64>>,
    )
        requires
            self.in_bounds(s),
            !self.is_valid(s),
        ensures
            self.optimality_update(discount, noise, values)[self.index_of(s)] == 0,
            self.optimality_q(discount, noise, values, q)[self.index_of(s)] == q[self.index_of(s)],
            self.greedy_policy(q)[self.index_of(s)] == Action::Nothing,
    {
        self.lemma_index_of(s);
    }

    /// An optimality sweep gives an exit that is no wall its reward,
    /// undiscounted, and leaves its row of Q-values alone, and the greedy
    /// policy exits there.
    pub proof fn lemma_sweep_at_exit(
        &self,
        s: State,
        discount: int,
        noise: int,
        values: Seq<i64>,
        q: Seq<Seq<i64>>,
    )
        requires
            self.is_valid(s),
            self.is_exit(s),
        ensures
            self.optimality_update(discount, noise, values)[self.index_of(s)] == self.spec_reward(
                s,
                Action::Exit,
            ),
            self.optimality_q(discount, noise, values, q)[self.index_of(s)] == q[self.index_of(s)],
            self.greedy_policy(q)[self.index_of(s)] == Action::Exit,
    {
        self.lemma_index_of(s);
    }

    /// An expectation sweep gives zero where the policy does nothing and the
    /// reward, undiscounted, where it exits.
    pub proof fn lemma_expectation_sweep(
        &self,
        s: State,
        discount: int,
        noise: int,
        policy: Seq<Action>,
        values: Seq<i64>,
    )
        requires
            self.in_bounds(s),
        ensures
            policy[self.index_of(s)] == Action::Nothing ==> self.expectation_update(
                discount,
                noise,
                policy,
                values,
            )[self.index_of(s)] == 0,
            policy[self.index_of(s)] == Action::Exit ==> self.expectation_update(
                discount,
                noise,
                policy,
                values,
            )[self.index_of(s)] == self.spec_reward(s, Action::Exit),
    {
        self.lemma_index_of(s);
    }

    /// After every sweep of value iteration a wall has the value zero and an
    /// exit that is no wall has its reward.
    pub proof fn lemma_swept_values(&self, s: State, discount: int, noise: int, n: nat)
        requires
            self.in_bounds(s),
            n >= 1,
        ensures
            !self.is_valid(s) ==> self.swept_values(discount, noise, n)[self.index_of(s)] == 0,
            self.is_valid(s) && self.is_exit(s) ==> self.swept_values(
                discount,
                noise,
                n,
            )[self.index_of(s)] == self.spec_reward(s, Action::Exit),
    {
        self.lemma_index_of(s);
    }

    /// After every sweep of a policy evaluation, whatever values it began
    /// with, a cell where the policy does nothing has the value zero and a
    /// cell where it exits has the reward.
    pub proof fn lemma_evaluated_values(
        &self,
        s: State,
        discount: int,
        noise: int,
        policy: Seq<Action>,
        start: Seq<i64>,
        n: nat,
    )
        requires
            self.in_bounds(s),
            n >= 1,
        ensures
            policy[self.index_of(s)] == Action::Nothing ==> self.evaluated_values(
                discount,
                noise,
                policy,
                start,
                n,
            )[self.index_of(s)] == 0,
            policy[self.index_of(s)] == Action::Exit ==> self.evaluated_values(
                discount,
                noise,
                policy,
                start,
                n,
            )[self.index_of(s)] == self.spec_reward(s, Action::Exit),
    {
        self.lemma_index_of(s);
    }

    /// A policy evaluation that stops, whatever values it began with, ends
    /// with zero where the policy does nothing and with the reward where it
    /// exits.
    pub proof fn lemma_evaluation(
        &self,
        s: State,
        discount: int,
        noise: int,
        epsilon: int,
        policy: Seq<Action>,
        start: Seq<i64>,
        cap: nat,
        found: Seq<i64>,
    )
        requires
            self.in_bounds(s),
            self.evaluation(discount, noise, epsilon, policy, start, cap) == Some(found),
        ensures
            policy[self.index_of(s)] == Action::Nothing ==> found[self.index_of(s)] == 0,
            policy[self.index_of(s)] == Action::Exit ==> found[self.index_of(s)]
                == self.spec_reward(s, Action::Exit),
    {
        let n = choose|n: nat|
            n <= cap && self.evaluation_stops_at(discount, noise, epsilon, policy, start, n);
        self.lemma_evaluated_values(s, discount, noise, policy, start, n);
    }

    /// The default policy suits the grid, and an improvement of a policy
    /// that suits the grid suits it too.
    pub proof fn lemma_policies_suit(
        &self,
        discount: int,
        noise: int,
        policy: Seq<Action>,
        values: Seq<i64>,
    )
        ensures
            self.suits(self.default_policy()),
            self.suits(policy) ==> self.suits(
                self.improved_policy(discount, noise, policy, values),
            ),
    {
        if self.suits(policy) {
            let improved = self.improved_policy(discount, noise, policy, values);
            assert forall|i: int| 0 <= i < improved.len() implies match #[trigger] improved[i] {
                Action::Nothing => !self.is_valid(self.state_at(i)),
                Action::Exit => self.is_valid(self.state_at(i)) && self.is_exit(self.state_at(i)),
                Action::Move(_) => self.is_free(self.state_at(i)),
            } by {
                assert(policy[i] == policy[i]);
            }
        }
    }

    /// Wherever policy iteration stands, its policy suits the grid.
    pub proof fn lemma_round_suits(
        &self,
        discount: int,
        noise: int,
        epsilon: int,
        cap: nat,
        r: nat,
    )
        ensures
            self.round(discount, noise, epsilon, cap, r) matches Some(now) ==> self.suits(
                now.policy,
            ),
        decreases r,
    {
        if r == 0 {
            self.lemma_policies_suit(discount, noise, self.default_policy(), self.zeros());
        } else {
            self.lemma_round_suits(discount, noise, epsilon, cap, (r - 1) as nat);
            match self.round(discount, noise, epsilon, cap, (r - 1) as nat) {
                Some(before) => {
                    match self.evaluation(
                        discount,
                        noise,
                        epsilon,
                        before.policy,
                        before.values,
                        cap,
                    ) {
                        Some(values) => {
                            self.lemma_policies_suit(discount, noise, before.policy, values);
                        },
                        None => {},
                    }
                },
                None => {},
            }
        }
    }

    /// After every round of policy iteration a wall has the value zero and
    /// no action, and an exit that is no wall has its reward and exits.
    pub proof fn lemma_round_at_walls_and_exits(
        &self,
        s: State,
        discount: int,
        noise: int,
        epsilon: int,
        cap: nat,
        r: nat,
        now: Round,
    )
        requires
            self.in_bounds(s),
            r >= 1,
            self.round(discount, noise, epsilon, cap, r) == Some(now),
        ensures
            !self.is_valid(s) ==> now.values[self.index_of(s)] == 0 && now.policy[self.index_of(s)]
                == Action::Nothing,
            self.is_valid(s) && self.is_exit(s) ==> now.values[self.index_of(s)]
                == self.spec_reward(s, Action::Exit) && now.policy[self.index_of(s)]
                == Action::Exit,
    {
        self.lemma_index_of(s);
        self.lemma_round_suits(discount, noise, epsilon, cap, (r - 1) as nat);
        self.lemma_round_suits(discount, noise, epsilon, cap, r);
        let before = self.round(discount, noise, epsilon, cap, (r - 1) as nat).unwrap();
        let i = self.index_of(s);
        assert(before.policy[i] == before.policy[i]);
        assert(now.policy[i] == now.policy[i]);
        self.lemma_evaluation(
            s,
            discount,
            noise,
            epsilon,
            before.policy,
            before.values,
            cap,
            now.values,
        );
    }
}

} // verus!
