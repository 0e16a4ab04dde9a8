//! One Bellman update of every cell, in its optimality and its expectation
//! form, and the policies that follow from Q-values.
//!
//! A sweep is synchronous: it reads only the values it was given and writes a
//! fresh vector.
use crate::fixed::{
    all_in_range, in_range, is_fraction, magnitude, scale, scaled, weigh, weighed, LIMIT, WHOLE,
};
use crate::world::{lemma_index_in_area, Action, Direction, State, World};
use vstd::prelude::*;

verus! {

/// The rows of a table of Q-values as sequences.
pub open spec fn rows(q: Seq<[i64; 4]>) -> Seq<Seq<i64>> {
    Seq::new(q.len(), |i: int| q[i]@)
}

/// The place of the largest entry of a row of four; of several largest
/// entries, the first.
pub open spec fn best(row: Seq<i64>) -> int {
    if row[0] >= row[1] && row[0] >= row[2] && row[0] >= row[3] {
        0
    } else if row[1] >= row[2] && row[1] >= row[3] {
        1
    } else if row[2] >= row[3] {
        2
    } else {
        3
    }
}

/// Finds the place of the largest entry of a row; of several largest entries,
/// the first.
pub fn best_place(row: &[i64; 4]) -> (place: usize)
    ensures
        place == best(row@),
        place < 4,
        forall|k: int| 0 <= k < 4 ==> row@[k] <= row@[place as int],
        forall|k: int| 0 <= k < place ==> row@[k] < row@[place as int],
{
    let mut target: usize = 0;
    let mut i: usize = 1;
    while i < 4
        invariant
            1 <= i <= 4,
            target < i,
            forall|k: int| 0 <= k < i ==> row@[k] <= row@[target as int],
            forall|k: int| 0 <= k < target ==> row@[k] < row@[target as int],
        decreases 4 - i,
    {
        if row[i] > row[target] {
            target = i;
        }
        i += 1;
    }
    target
}

impl World {
    /// What one resulting action is worth: its reward plus the discounted
    /// value of the cell it leads to. Only a move leads anywhere.
    pub open spec fn outcome(&self, s: State, a: Action, discount: int, values: Seq<i64>) -> int {
        match a {
            Action::Move(d) => self.spec_reward(s, a) + scaled(
                discount,
                values[self.index_of(self.spec_move_to(s, d))] as int,
            ),
            _ => 0,
        }
    }

    /// The expectation of `outcome` over a distribution: each outcome takes
    /// the share that its weight stands for.
    pub open spec fn expectation(
        &self,
        s: State,
        entries: Seq<(i64, Action)>,
        discount: int,
        values: Seq<i64>,
    ) -> int
        decreases entries.len(),
    {
        if entries.len() == 0 {
            0
        } else {
            self.expectation(s, entries.drop_last(), discount, values) + weighed(
                entries.last().0 as int,
                self.outcome(s, entries.last().1, discount, values),
            )
        }
    }

    /// The value of taking `a` in `s` and following `values` thereafter:
    /// the reward for `Exit`, the expectation over the transition
    /// distribution for a move, zero for `Nothing`.
    pub open spec fn spec_value(
        &self,
        s: State,
        a: Action,
        discount: int,
        noise: int,
        values: Seq<i64>,
    ) -> int {
        match a {
            Action::Exit => self.spec_reward(s, a),
            Action::Move(_) => match self.spec_transition(s, a, noise) {
                Some(entries) => self.expectation(s, entries, discount, values),
                None => 0,
            },
            Action::Nothing => 0,
        }
    }

    /// The four Q-values of a state: the value of a move in each direction,
    /// in the order Up, Right, Down, Left.
    pub open spec fn q_row(&self, s: State, discount: int, noise: int, values: Seq<i64>) -> Seq<
        i64,
    > {
        Seq::new(
            4,
            |k: int|
                self.spec_value(s, Action::Move(Direction::at(k)), discount, noise, values) as i64,
        )
    }

    /// The state is a cell where the agent chooses a move: on the grid,
    /// neither wall nor exit.
    pub open spec fn is_free(&self, s: State) -> bool {
        self.is_valid(s) && !self.is_exit(s)
    }

    /// The Bellman optimality value of one cell: zero for a wall, the reward
    /// for an exit, else the largest Q-value.
    pub open spec fn optimal_cell(
        &self,
        s: State,
        discount: int,
        noise: int,
        values: Seq<i64>,
    ) -> int {
        if !self.is_valid(s) {
            0
        } else if self.is_exit(s) {
            self.spec_reward(s, Action::Exit)
        } else {
            let row = self.q_row(s, discount, noise, values);
            row[best(row)] as int
        }
    }

    /// The values after one optimality sweep over `values`.
    pub open spec fn optimality_update(&self, discount: int, noise: int, values: Seq<i64>) -> Seq<
        i64,
    > {
        Seq::new(
            self.spec_area() as nat,
            |i: int| self.optimal_cell(self.state_at(i), discount, noise, values) as i64,
        )
    }

    /// The Q-values after one optimality sweep over `values`: a fresh row
    /// for every free cell, the row of `q` for every other cell.
    pub open spec fn optimality_q(
        &self,
        discount: int,
        noise: int,
        values: Seq<i64>,
        q: Seq<Seq<i64>>,
    ) -> Seq<Seq<i64>> {
        Seq::new(
            self.spec_area() as nat,
            |i: int|
                if self.is_free(self.state_at(i)) {
                    self.q_row(self.state_at(i), discount, noise, values)
                } else {
                    q[i]
                },
        )
    }

    /// The action that is greedy in a cell with the given row of Q-values.
    pub open spec fn greedy_action(&self, s: State, row: Seq<i64>) -> Action {
        if !self.is_valid(s) {
            Action::Nothing
        } else if self.is_exit(s) {
            Action::Exit
        } else {
            Action::Move(Direction::at(best(row)))
        }
    }

    /// The policy that is greedy for a table of Q-values.
    pub open spec fn greedy_policy(&self, q: Seq<Seq<i64>>) -> Seq<Action> {
        Seq::new(self.spec_area() as nat, |i: int| self.greedy_action(self.state_at(i), q[i]))
    }

    /// The action a policy starts from: `Nothing` for a wall, `Exit` for an
    /// exit, a move up for every free cell.
    pub open spec fn default_action(&self, s: State) -> Action {
        if !self.is_valid(s) {
            Action::Nothing
        } else if self.is_exit(s) {
            Action::Exit
        } else {
            Action::Move(Direction::Up)
        }
    }

    /// The policy that policy iteration starts from.
    pub open spec fn default_policy(&self) -> Seq<Action> {
        Seq::new(self.spec_area() as nat, |i: int| self.default_action(self.state_at(i)))
    }

    /// The values after one expectation sweep over `values` under `policy`.
    pub open spec fn expectation_update(
        &self,
        discount: int,
        noise: int,
        policy: Seq<Action>,
        values: Seq<i64>,
    ) -> Seq<i64> {
        Seq::new(
            self.spec_area() as nat,
            |i: int| self.spec_value(self.state_at(i), policy[i], discount, noise, values) as i64,
        )
    }

    /// The improved action of one cell: a move becomes the move with the
    /// largest Q-value, anything else stays.
    pub open spec fn improved_action(
        &self,
        s: State,
        a: Action,
        discount: int,
        noise: int,
        values: Seq<i64>,
    ) -> Action {
        match a {
            Action::Move(_) => Action::Move(
                Direction::at(best(self.q_row(s, discount, noise, values))),
            ),
            _ => a,
        }
    }

    /// The policy after one improvement of `policy` against `values`.
    pub open spec fn improved_policy(
        &self,
        discount: int,
        noise: int,
        policy: Seq<Action>,
        values: Seq<i64>,
    ) -> Seq<Action> {
        Seq::new(
            self.spec_area() as nat,
            |i: int| self.improved_action(self.state_at(i), policy[i], discount, noise, values),
        )
    }

    /// The Q-values after one improvement: a fresh row for every cell whose
    /// action was a move, the row of `q` for every other cell.
    pub open spec fn improved_q(
        &self,
        discount: int,
        noise: int,
        policy: Seq<Action>,
        values: Seq<i64>,
        q: Seq<Seq<i64>>,
    ) -> Seq<Seq<i64>> {
        Seq::new(
            self.spec_area() as nat,
            |i: int|
                if policy[i] is Move {
                    self.q_row(self.state_at(i), discount, noise, values)
                } else {
                    q[i]
                },
        )
    }

    /// The policy has one action per cell, and of the kind that the cell
    /// calls for: `Nothing` for a wall, `Exit` for an exit, a move for a free
    /// cell.
    pub open spec fn suits(&self, policy: Seq<Action>) -> bool {
        &&& policy.len() == self.spec_area()
        &&& forall|i: int|
            0 <= i < policy.len() ==> match #[trigger] policy[i] {
                Action::Nothing => !self.is_valid(self.state_at(i)),
                Action::Exit => self.is_valid(self.state_at(i)) && self.is_exit(self.state_at(i)),
                Action::Move(_) => self.is_free(self.state_at(i)),
            }
    }

    /// A policy is stable under an improvement that left every cell as it
    /// was.
    pub open spec fn is_stable(before: Seq<Action>, after: Seq<Action>) -> bool {
        after == before
    }

    /// The value of taking `action` in `state` and following `values`
    /// thereafter.
    pub fn value(
        &self,
        state: &State,
        action: Action,
        discount: i64,
        noise: i64,
        values: &Vec<i64>,
    ) -> (value: i64)
        requires
            self.wf(),
            self.in_bounds(*state),
            values@.len() == self.spec_area(),
            all_in_range(values@),
            is_fraction(discount as int),
            is_fraction(noise as int),
        ensures
            value == self.spec_value(*state, action, discount as int, noise as int, values@),
            in_range(value as int),
    {
        match action {
            Action::Exit => self.reward(state, action),
            Action::Move(_) => {
                let mut accumulation: i64 = 0;
                if let Some(entries) = self.transition(state, action, noise) {
                    let ghost all = entries@;
                    let ghost mut used: int = 0;
                    let mut i: usize = 0;
                    assert(all.take(0) =~= Seq::<(i64, Action)>::empty());
                    while i < entries.len()
                        invariant
                            self.wf(),
                            self.in_bounds(*state),
                            values@.len() == self.spec_area(),
                            all_in_range(values@),
                            is_fraction(discount as int),
                            is_fraction(noise as int),
                            all == entries@,
                            Some(all) == self.spec_transition(*state, action, noise as int),
                            action is Move,
                            i <= all.len() == 3,
                            used == if i == 0 {
                                0
                            } else if i == 1 {
                                all[0].0 as int
                            } else if i == 2 {
                                all[0].0 + all[1].0
                            } else {
                                WHOLE as int
                            },
                            all[0].0 + all[1].0 + all[2].0 == WHOLE,
                            accumulation == self.expectation(
                                *state,
                                all.take(i as int),
                                discount as int,
                                values@,
                            ),
                            magnitude(accumulation as int) * WHOLE <= used * LIMIT,
                        decreases entries.len() - i,
                    {
                        let entry = entries[i];
                        assert(all.take(i + 1).drop_last() =~= all.take(i as int));
                        assert(all.take(i + 1).last() == entry);
                        assert(0 <= entry.0 <= WHOLE);
                        if let Action::Move(direction) = entry.1 {
                            let target = self.move_to(state, direction);
                            proof {
                                lemma_index_in_area(
                                    target.x as int,
                                    target.y as int,
                                    self.width as int,
                                    self.height as int,
                                );
                            }
                            let onward = scale(discount, values[target.y * self.width + target.x]);
                            let term = weigh(entry.0, self.reward(state, entry.1) + onward);
                            accumulation = accumulation + term;
                        }
                        proof {
                            used = used + entry.0;
                        }
                        i += 1;
                    }
                    assert(all.take(3) =~= all);
                }
                accumulation
            },
            Action::Nothing => 0,
        }
    }

    /// The four Q-values of a state, in the order Up, Right, Down, Left.
    pub fn q_values_of(&self, state: &State, discount: i64, noise: i64, values: &Vec<i64>) -> (row:
        [i64; 4])
        requires
            self.wf(),
            self.in_bounds(*state),
            values@.len() == self.spec_area(),
            all_in_range(values@),
            is_fraction(discount as int),
            is_fraction(noise as int),
        ensures
            row@ == self.q_row(*state, discount as int, noise as int, values@),
            all_in_range(row@),
    {
        let mut row: [i64; 4] = [0; 4];
        let mut i: usize = 0;
        while i < 4
            invariant
                self.wf(),
                self.in_bounds(*state),
                values@.len() == self.spec_area(),
                all_in_range(values@),
                is_fraction(discount as int),
                is_fraction(noise as int),
                i <= 4,
                forall|k: int|
                    0 <= k < i ==> row@[k] == self.spec_value(
                        *state,
                        Action::Move(Direction::at(k)),
                        discount as int,
                        noise as int,
                        values@,
                    ) && in_range(row@[k] as int),
            decreases 4 - i,
        {
            let direction = Direction::from_index(i);
            let v = self.value(state, Action::Move(direction), discount, noise, values);
            row[i] = v;
            i += 1;
        }
        assert(row@ =~= self.q_row(*state, discount as int, noise as int, values@));
        row
    }

    /// The policy that is greedy for a table of Q-values: `Nothing` for a
    /// wall, `Exit` for an exit, and for every free cell the move with the
    /// largest Q-value, the first of several largest in the order Up, Right,
    /// Down, Left.
    pub fn generate_policy(&self, q_values: &Vec<[i64; 4]>) -> (policy: Vec<Action>)
        requires
            self.wf(),
            q_values@.len() == self.spec_area(),
        ensures
            policy@ == self.greedy_policy(rows(q_values@)),
            forall|s: State|
                self.in_bounds(s) ==> #[trigger] policy@[self.index_of(s)] == self.greedy_action(
                    s,
                    q_values@[self.index_of(s)]@,
                ),
    {
        let area = self.area();
        let mut policy: Vec<Action> = Vec::new();
        let mut index: usize = 0;
        while index < area
            invariant
                self.wf(),
                q_values@.len() == self.spec_area(),
                area == self.spec_area(),
                index <= area,
                policy@.len() == index,
                forall|k: int|
                    0 <= k < index ==> policy@[k] == self.greedy_action(
                        self.state_at(k),
                        q_values@[k]@,
                    ),
            decreases area - index,
        {
            proof {
                self.lemma_state_at(index as int);
            }
            let state = State::new(index % self.width, index / self.width);
            if !self.valid_position(&state) {
                policy.push(Action::Nothing);
            } else if self.can_exit(&state) {
                policy.push(Action::Exit);
            } else {
                let target = best_place(&q_values[index]);
                policy.push(Action::Move(Direction::from_index(target)));
            }
            index += 1;
        }
        assert(policy@ =~= self.greedy_policy(rows(q_values@)));
        assert forall|s: State| self.in_bounds(s) implies #[trigger] policy@[self.index_of(s)]
            == self.greedy_action(s, q_values@[self.index_of(s)]@) by {
            self.lemma_index_of(s);
        }
        policy
    }

    /// The policy that policy iteration starts from: `Nothing` for a wall,
    /// `Exit` for an exit, a move up for every free cell. Nothing in it is
    /// drawn at random.
    pub fn generate_random_policy(&self) -> (policy: Vec<Action>)
        requires
            self.wf(),
        ensures
            policy@ == self.default_policy(),
            self.suits(policy@),
            forall|s: State|
                self.in_bounds(s) ==> #[trigger] policy@[self.index_of(s)] == self.default_action(
                    s,
                ),
    {
        let area = self.area();
        let mut policy: Vec<Action> = Vec::new();
        let mut index: usize = 0;
        while index < area
            invariant
                self.wf(),
                area == self.spec_area(),
                index <= area,
                policy@.len() == index,
                forall|k: int|
                    0 <= k < index ==> policy@[k] == self.default_action(self.state_at(k)),
            decreases area - index,
        {
            proof {
                self.lemma_state_at(index as int);
            }
            let state = State::new(index % self.width, index / self.width);
            if !self.valid_position(&state) {
                policy.push(Action::Nothing);
            } else if self.can_exit(&state) {
                policy.push(Action::Exit);
            } else {
                policy.push(Action::Move(Direction::Up));
            }
            index += 1;
        }
        assert(policy@ =~= self.default_policy());
        assert forall|s: State| self.in_bounds(s) implies #[trigger] policy@[self.index_of(s)]
            == self.default_action(s) by {
            self.lemma_index_of(s);
        }
        policy
    }

    /// One synchronous Bellman optimality sweep. Every cell of the result is
    /// computed from `values` alone: zero for a wall, the reward for an exit,
    /// the largest Q-value for a free cell, whose row of `q_values` is
    /// replaced by its four fresh Q-values.
    pub fn value_bellman_update(
        &self,
        discount: i64,
        noise: i64,
        values: &Vec<i64>,
        q_values: &mut Vec<[i64; 4]>,
    ) -> (result: Vec<i64>)
        requires
            self.wf(),
            values@.len() == self.spec_area(),
            old(q_values)@.len() == self.spec_area(),
            all_in_range(values@),
            is_fraction(discount as int),
            is_fraction(noise as int),
        ensures
            result@ == self.optimality_update(discount as int, noise as int, values@),
            final(q_values)@.len() == old(q_values)@.len(),
            rows(final(q_values)@) == self.optimality_q(
                discount as int,
                noise as int,
                values@,
                rows(old(q_values)@),
            ),
            all_in_range(result@),
            forall|s: State|
                self.in_bounds(s) ==> #[trigger] result@[self.index_of(s)] == self.optimal_cell(
                    s,
                    discount as int,
                    noise as int,
                    values@,
                ),
    {
        let ghost before = q_values@;
        let area = self.area();
        let mut result: Vec<i64> = Vec::new();
        let mut index: usize = 0;
        while index < area
            invariant
                self.wf(),
                values@.len() == self.spec_area(),
                all_in_range(values@),
                is_fraction(discount as int),
                is_fraction(noise as int),
                area == self.spec_area(),
                index <= area,
                result@.len() == index,
                q_values@.len() == area,
                before.len() == area,
                forall|k: int|
                    0 <= k < index ==> result@[k] == self.optimal_cell(
                        self.state_at(k),
                        discount as int,
                        noise as int,
                        values@,
                    ) && in_range(result@[k] as int),
                forall|k: int|
                    0 <= k < index ==> q_values@[k]@ == if self.is_free(self.state_at(k)) {
                        self.q_row(self.state_at(k), discount as int, noise as int, values@)
                    } else {
                        before[k]@
                    },
                forall|k: int| index <= k < area ==> q_values@[k] == before[k],
            decreases area - index,
        {
            proof {
                self.lemma_state_at(index as int);
            }
            let state = State::new(index % self.width, index / self.width);
            if !self.valid_position(&state) {
                result.push(0);
            } else if self.can_exit(&state) {
                result.push(self.reward(&state, Action::Exit));
            } else {
                let row = self.q_values_of(&state, discount, noise, values);
                let place = best_place(&row);
                result.push(row[place]);
                q_values[index] = row;
            }
            index += 1;
        }
        assert(result@ =~= self.optimality_update(discount as int, noise as int, values@));
        assert(rows(q_values@) =~= self.optimality_q(
            discount as int,
            noise as int,
            values@,
            rows(before),
        ));
        assert forall|s: State| self.in_bounds(s) implies #[trigger] result@[self.index_of(s)]
            == self.optimal_cell(s, discount as int, noise as int, values@) by {
            self.lemma_index_of(s);
        }
        result
    }

    /// One synchronous Bellman expectation sweep: every cell of the result is
    /// the value, computed from `values` alone, of the action that `policy`
    /// takes there.
    pub fn policy_bellman_update(
        &mut self,
        discount: i64,
        noise: i64,
        policy: &Vec<Action>,
        values: &Vec<i64>,
    ) -> (result: Vec<i64>)
        requires
            old(self).wf(),
            policy@.len() == old(self).spec_area(),
            values@.len() == old(self).spec_area(),
            all_in_range(values@),
            is_fraction(discount as int),
            is_fraction(noise as int),
        ensures
            *final(self) == *old(self),
            result@ == old(self).expectation_update(
                discount as int,
                noise as int,
                policy@,
                values@,
            ),
            all_in_range(result@),
            forall|s: State|
                old(self).in_bounds(s) ==> #[trigger] result@[old(self).index_of(s)] == old(
                    self,
                ).spec_value(
                    s,
                    policy@[old(self).index_of(s)],
                    discount as int,
                    noise as int,
                    values@,
                ),
    {
        let area = self.area();
        let mut result: Vec<i64> = Vec::new();
        let mut index: usize = 0;
        while index < area
            invariant
                *self == *old(self),
                self.wf(),
                policy@.len() == self.spec_area(),
                values@.len() == self.spec_area(),
                all_in_range(values@),
                is_fraction(discount as int),
                is_fraction(noise as int),
                area == self.spec_area(),
                index <= area,
                result@.len() == index,
                forall|k: int|
                    0 <= k < index ==> result@[k] == self.spec_value(
                        self.state_at(k),
                        policy@[k],
                        discount as int,
                        noise as int,
                        values@,
                    ) && in_range(result@[k] as int),
            decreases area - index,
        {
            proof {
                self.lemma_state_at(index as int);
            }
            let state = State::new(index % self.width, index / self.width);
            result.push(self.value(&state, policy[index], discount, noise, values));
            index += 1;
        }
        assert(result@ =~= self.expectation_update(
            discount as int,
            noise as int,
            policy@,
            values@,
        ));
        assert forall|s: State| self.in_bounds(s) implies #[trigger] result@[self.index_of(s)]
            == self.spec_value(
            s,
            policy@[self.index_of(s)],
            discount as int,
            noise as int,
            values@,
        ) by {
            self.lemma_index_of(s);
        }
        result
    }

    /// One policy improvement: every move of `policy` becomes the move with
    /// the largest Q-value against `values`, and the cell's row of `q_values`
    /// is replaced by those Q-values; `Exit` and `Nothing` stay. The flag
    /// says whether the policy came out unchanged in every cell.
    pub fn policy_improvement(
        &self,
        discount: i64,
        noise: i64,
        policy: &Vec<Action>,
        values: &Vec<i64>,
        q_values: &mut Vec<[i64; 4]>,
    ) -> (result: (Vec<Action>, bool))
        requires
            self.wf(),
            policy@.len() == self.spec_area(),
            values@.len() == self.spec_area(),
            old(q_values)@.len() == self.spec_area(),
            all_in_range(values@),
            is_fraction(discount as int),
            is_fraction(noise as int),
        ensures
            result.0@ == self.improved_policy(discount as int, noise as int, policy@, values@),
            final(q_values)@.len() == old(q_values)@.len(),
            rows(final(q_values)@) == self.improved_q(
                discount as int,
                noise as int,
                policy@,
                values@,
                rows(old(q_values)@),
            ),
            result.1 == (result.0@ == policy@),
            self.suits(policy@) ==> self.suits(result.0@),
    {
        let ghost before = q_values@;
        let area = self.area();
        let mut improved: Vec<Action> = Vec::new();
        let mut unchanged = true;
        let mut index: usize = 0;
        while index < area
            invariant
                self.wf(),
                policy@.len() == self.spec_area(),
                values@.len() == self.spec_area(),
                all_in_range(values@),
                is_fraction(discount as int),
                is_fraction(noise as int),
                area == self.spec_area(),
                index <= area,
                improved@.len() == index,
                q_values@.len() == area,
                before.len() == area,
                forall|k: int|
                    0 <= k < index ==> improved@[k] == self.improved_action(
                        self.state_at(k),
                        policy@[k],
                        discount as int,
                        noise as int,
                        values@,
                    ),
                forall|k: int|
                    0 <= k < index ==> q_values@[k]@ == if policy@[k] is Move {
                        self.q_row(self.state_at(k), discount as int, noise as int, values@)
                    } else {
                        before[k]@
                    },
                forall|k: int| index <= k < area ==> q_values@[k] == before[k],
                unchanged <==> forall|k: int| 0 <= k < index ==> improved@[k] == policy@[k],
            decreases area - index,
        {
            proof {
                self.lemma_state_at(index as int);
            }
            let state = State::new(index % self.width, index / self.width);
            let action = match policy[index] {
                Action::Move(_) => {
                    let row = self.q_values_of(&state, discount, noise, values);
                    let optimal = best_place(&row);
                    q_values[index] = row;
                    Action::Move(Direction::from_index(optimal))
                },
                other => other,
            };
            if !(action == policy[index]) {
                unchanged = false;
            }
            improved.push(action);
            index += 1;
        }
        assert(improved@ =~= self.improved_policy(
            discount as int,
            noise as int,
            policy@,
            values@,
        ));
        assert(rows(q_values@) =~= self.improved_q(
            discount as int,
            noise as int,
            policy@,
            values@,
            rows(before),
        ));
        assert(unchanged <==> improved@ =~= policy@);
        (improved, unchanged)
    }
}

} // verus!
