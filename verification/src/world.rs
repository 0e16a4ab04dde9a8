//! The grid: cells, walls, exits, and how an agent moves on it.
use crate::fixed::{in_range, is_fraction, ONE, WHOLE};
use vstd::prelude::*;

verus! {

/// A cell position: column `x`, row `y`.
#[derive(Clone, Copy, Debug, PartialEq, Eq, Hash, Structural)]
pub struct State {
    pub x: usize,
    pub y: usize,
}

impl State {
    pub fn new(x: usize, y: usize) -> (state: Self)
        ensures
            state.x == x,
            state.y == y,
    {
        State { x, y }
    }
}

/// A compass direction. `Up` leads to the row above, that is to `y - 1`.
#[derive(Clone, Copy, Debug, PartialEq, Eq, Structural)]
pub enum Direction {
    Up,
    Down,
    Left,
    Right,
}

impl Direction {
    /// The direction that stands at place `i` of a row of Q-values: the
    /// places run Up, Right, Down, Left.
    pub open spec fn at(i: int) -> Direction {
        if i == 0 {
            Direction::Up
        } else if i == 1 {
            Direction::Right
        } else if i == 2 {
            Direction::Down
        } else {
            Direction::Left
        }
    }

    /// The place of this direction in a row of Q-values.
    pub open spec fn place(self) -> int {
        match self {
            Direction::Up => 0,
            Direction::Right => 1,
            Direction::Down => 2,
            Direction::Left => 3,
        }
    }

    /// The direction that points the other way.
    pub open spec fn opposite(self) -> Direction {
        match self {
            Direction::Up => Direction::Down,
            Direction::Down => Direction::Up,
            Direction::Left => Direction::Right,
            Direction::Right => Direction::Left,
        }
    }

    /// Up and Down are vertical, Left and Right are not.
    pub open spec fn is_vertical(self) -> bool {
        self == Direction::Up || self == Direction::Down
    }

    /// Two directions are orthogonal when exactly one of them is vertical.
    pub open spec fn orthogonal_to(self, other: Direction) -> bool {
        self.is_vertical() != other.is_vertical()
    }

    /// The direction at place `i` of a row of Q-values.
    pub fn from_index(i: usize) -> (d: Direction)
        requires
            i < 4,
        ensures
            d == Direction::at(i as int),
            d.place() == i,
    {
        if i == 0 {
            Direction::Up
        } else if i == 1 {
            Direction::Right
        } else if i == 2 {
            Direction::Down
        } else {
            Direction::Left
        }
    }
}

/// What an agent does in a cell. `Nothing` marks a cell where no action
/// applies; `Exit` leaves the grid and is legal only in an exit cell.
#[derive(Clone, Copy, Debug, PartialEq, Eq, Structural)]
pub enum Action {
    Nothing,
    Move(Direction),
    Exit,
}

/// A rectangular grid. Cell `(x, y)` stands at index `y * width + x` of
/// `board`, which holds 0 for an open cell and anything else for a wall, and
/// of `exits`, which holds the reward of an exit cell.
pub struct World {
    pub width: usize,
    pub height: usize,
    pub board: Vec<usize>,
    pub exits: Vec<Option<i64>>,
}

/// What a grid is, told in sequences: the view of a `World`.
pub struct Chart {
    pub width: usize,
    pub height: usize,
    pub board: Seq<usize>,
    pub exits: Seq<Option<i64>>,
}

impl Chart {
    /// A grid of open cells without exits.
    pub open spec fn blank(width: usize, height: usize) -> Chart {
        Chart {
            width,
            height,
            board: Seq::new((width * height) as nat, |i: int| 0usize),
            exits: Seq::new((width * height) as nat, |i: int| None::<i64>),
        }
    }

    /// The area fits the machine, both tables hold one entry per cell, and
    /// every reward is in range.
    pub open spec fn wf(self) -> bool {
        &&& self.width * self.height <= usize::MAX
        &&& self.board.len() == self.width * self.height
        &&& self.exits.len() == self.width * self.height
        &&& forall|i: int|
            0 <= i < self.exits.len() ==> ((#[trigger] self.exits[i]) matches Some(r) ==> in_range(
                r as int,
            ))
    }

    /// The coordinates lie on the grid.
    pub open spec fn on_grid(self, x: int, y: int) -> bool {
        0 <= x < self.width && 0 <= y < self.height
    }

    /// The coordinates lie on the grid and the cell there is no wall.
    pub open spec fn open_at(self, x: int, y: int) -> bool {
        self.on_grid(x, y) && self.board[y * self.width + x] == 0
    }

    /// The reward of the exit at the coordinates, if they lie on the grid and
    /// the cell there is an exit.
    pub open spec fn exit_at(self, x: int, y: int) -> Option<i64> {
        if self.on_grid(x, y) {
            self.exits[y * self.width + x]
        } else {
            None
        }
    }

    /// The grid with a wall at `(x, y)`; the same grid if the coordinates lie
    /// off it.
    pub open spec fn with_wall(self, x: int, y: int) -> Chart {
        if self.on_grid(x, y) {
            Chart { board: self.board.update(y * self.width + x, 1usize), ..self }
        } else {
            self
        }
    }

    /// The grid with an exit at `(x, y)` that pays `reward`; the same grid if
    /// the coordinates lie off it.
    pub open spec fn with_exit(self, x: int, y: int, reward: i64) -> Chart {
        if self.on_grid(x, y) {
            Chart { exits: self.exits.update(y * self.width + x, Some(reward)), ..self }
        } else {
            self
        }
    }
}

impl View for World {
    type V = Chart;

    open spec fn view(&self) -> Chart {
        Chart { width: self.width, height: self.height, board: self.board@, exits: self.exits@ }
    }
}

/// A cell inside a `width` by `height` grid has an index below the area.
pub proof fn lemma_index_in_area(x: int, y: int, width: int, height: int)
    by (nonlinear_arith)
    requires
        0 <= x < width,
        0 <= y < height,
    ensures
        0 <= y * width <= y * width + x < width * height,
{
}

/// An index below the area of a `width` by `height` grid names the cell in
/// column `i % width` of row `i / width`.
pub proof fn lemma_cell_of_index(i: int, width: int, height: int)
    requires
        0 <= width,
        0 <= i < width * height,
    ensures
        width > 0,
        0 <= i % width < width,
        0 <= i / width < height,
        (i / width) * width + i % width == i,
{
    assert(width > 0) by (nonlinear_arith)
        requires
            0 <= i < width * height,
            0 <= width,
    ;
    vstd::arithmetic::div_mod::lemma_fundamental_div_mod(i, width);
    vstd::arithmetic::div_mod::lemma_mod_bound(i, width);
    vstd::arithmetic::div_mod::lemma_div_pos_is_pos(i, width);
    let q = i / width;
    assert(q < height) by (nonlinear_arith)
        requires
            i == width * q + i % width,
            0 <= i % width,
            i < width * height,
            width > 0,
    ;
    assert(width * q == q * width) by (nonlinear_arith);
}

impl World {
    /// The number of cells.
    pub open spec fn spec_area(&self) -> int {
        self.width * self.height
    }

    /// The area fits the machine, both tables hold one entry per cell, and
    /// every reward is in range.
    pub open spec fn wf(&self) -> bool {
        self@.wf()
    }

    /// The coordinates lie on the grid.
    pub open spec fn on_grid(&self, x: int, y: int) -> bool {
        self@.on_grid(x, y)
    }

    /// The coordinates lie on the grid and the cell there is no wall.
    pub open spec fn open_at(&self, x: int, y: int) -> bool {
        self@.open_at(x, y)
    }

    /// The reward of the exit at the coordinates, if they lie on the grid and
    /// the cell there is an exit.
    pub open spec fn exit_at(&self, x: int, y: int) -> Option<i64> {
        self@.exit_at(x, y)
    }

    /// The state lies on the grid.
    pub open spec fn in_bounds(&self, s: State) -> bool {
        self.on_grid(s.x as int, s.y as int)
    }

    /// The index of a state's cell in the tables.
    pub open spec fn index_of(&self, s: State) -> int {
        s.y * self.width + s.x
    }

    /// The state whose cell stands at index `i`.
    pub open spec fn state_at(&self, i: int) -> State {
        State { x: (i % (self.width as int)) as usize, y: (i / (self.width as int)) as usize }
    }

    /// The state is on the grid and not a wall.
    pub open spec fn is_valid(&self, s: State) -> bool {
        self.open_at(s.x as int, s.y as int)
    }

    /// The state's cell is an exit.
    pub open spec fn is_exit(&self, s: State) -> bool {
        self.exit_at(s.x as int, s.y as int) is Some
    }

    /// The immediate reward of an action: the exit's reward for `Exit` from
    /// an exit cell, zero for everything else.
    pub open spec fn spec_reward(&self, s: State, a: Action) -> int {
        match a {
            Action::Exit => match self.exit_at(s.x as int, s.y as int) {
                Some(r) => r as int,
                None => 0,
            },
            _ => 0,
        }
    }

    /// The coordinates one step from `s` in direction `d`; they may lie off
    /// the grid.
    pub open spec fn step(s: State, d: Direction) -> (int, int) {
        match d {
            Direction::Up => (s.x as int, s.y - 1),
            Direction::Down => (s.x as int, s.y + 1),
            Direction::Left => (s.x - 1, s.y as int),
            Direction::Right => (s.x + 1, s.y as int),
        }
    }

    /// Where a move ends: on the neighbour if that is an open cell of the
    /// grid, else where it began.
    pub open spec fn spec_move_to(&self, s: State, d: Direction) -> State {
        let (x, y) = Self::step(s, d);
        if self.open_at(x, y) {
            State { x: x as usize, y: y as usize }
        } else {
            s
        }
    }

    /// The directions a move in direction `d` can take: `d` itself, then the
    /// two directions orthogonal to it.
    pub open spec fn spec_get_moves(d: Direction) -> Seq<Direction> {
        if d.is_vertical() {
            seq![d, Direction::Left, Direction::Right]
        } else {
            seq![d, Direction::Up, Direction::Down]
        }
    }

    /// The weight of the intended direction, out of `WHOLE`.
    pub open spec fn intended_weight(noise: int) -> int {
        2 * noise
    }

    /// The weight of each of the two slips, out of `WHOLE`: half of what the
    /// intended direction leaves.
    pub open spec fn slip_weight(noise: int) -> int {
        ONE - noise
    }

    /// The distribution over resulting actions. `noise` is the probability
    /// that a move goes the intended way, not the probability of a slip.
    pub open spec fn spec_transition(&self, s: State, a: Action, noise: int) -> Option<
        Seq<(i64, Action)>,
    > {
        match a {
            Action::Exit => if self.is_exit(s) {
                Some(seq![(WHOLE, Action::Exit)])
            } else {
                None
            },
            Action::Move(d) => {
                let moves = Self::spec_get_moves(d);
                Some(
                    seq![
                        (Self::intended_weight(noise) as i64, Action::Move(moves[0])),
                        (Self::slip_weight(noise) as i64, Action::Move(moves[1])),
                        (Self::slip_weight(noise) as i64, Action::Move(moves[2])),
                    ],
                )
            },
            Action::Nothing => None,
        }
    }

    /// An index below the area names the cell of exactly one state on the
    /// grid.
    pub proof fn lemma_state_at(&self, i: int)
        requires
            0 <= i < self.spec_area(),
        ensures
            self.width > 0,
            self.in_bounds(self.state_at(i)),
            self.index_of(self.state_at(i)) == i,
            self.state_at(i).x == i % (self.width as int),
            self.state_at(i).y == i / (self.width as int),
    {
        lemma_cell_of_index(i, self.width as int, self.height as int);
    }

    /// A state on the grid is the state at its own index.
    pub proof fn lemma_index_of(&self, s: State)
        requires
            self.in_bounds(s),
        ensures
            0 <= self.index_of(s) < self.spec_area(),
            self.state_at(self.index_of(s)) == s,
    {
        let w = self.width as int;
        lemma_index_in_area(s.x as int, s.y as int, w, self.height as int);
        vstd::arithmetic::div_mod::lemma_fundamental_div_mod_converse(
            self.index_of(s),
            w,
            s.y as int,
            s.x as int,
        );
    }

    /// A grid of open cells without exits.
    pub fn new(width: usize, height: usize) -> (world: World)
        requires
            width * height <= usize::MAX,
        ensures
            world.wf(),
            world@ == Chart::blank(width, height),
    {
        let area: usize = width * height;
        let mut board: Vec<usize> = Vec::new();
        let mut exits: Vec<Option<i64>> = Vec::new();
        let mut i: usize = 0;
        while i < area
            invariant
                i <= area,
                board@.len() == i,
                exits@.len() == i,
                forall|k: int| 0 <= k < i ==> board@[k] == 0,
                forall|k: int| 0 <= k < i ==> exits@[k] is None,
            decreases area - i,
        {
            board.push(0);
            exits.push(None);
            i += 1;
        }
        assert(board@ =~= Chart::blank(width, height).board);
        assert(exits@ =~= Chart::blank(width, height).exits);
        World { width, height, board, exits }
    }

    /// The standard grid: four by three, a wall at `(1, 1)`, an exit that
    /// pays 1.0 at `(3, 0)` and one that pays -1.0 at `(3, 1)`.
    pub fn standard() -> (world: World)
        ensures
            world.wf(),
            world@ == Chart::blank(4, 3).with_wall(1, 1).with_exit(3, 0, ONE).with_exit(
                3,
                1,
                (-ONE) as i64,
            ),
    {
        let mut world = World::new(4, 3);
        world.add_wall(1, 1);
        world.add_exit(3, 0, ONE);
        world.add_exit(3, 1, -ONE);
        world
    }

    /// The number of cells.
    pub fn area(&self) -> (area: usize)
        requires
            self.wf(),
        ensures
            area == self.spec_area(),
    {
        self.board.len()
    }

    /// Turns the cell at `(x, y)` into a wall; does nothing if the
    /// coordinates lie off the grid.
    pub fn add_wall(&mut self, x: usize, y: usize)
        requires
            old(self).wf(),
        ensures
            final(self).wf(),
            final(self)@ == old(self)@.with_wall(x as int, y as int),
    {
        if x < self.width && y < self.height {
            proof {
                lemma_index_in_area(x as int, y as int, self.width as int, self.height as int);
            }
            let index: usize = y * self.width + x;
            self.board[index] = 1;
        }
    }

    /// Turns the cell at `(x, y)` into an exit that pays `reward`; does
    /// nothing if the coordinates lie off the grid.
    pub fn add_exit(&mut self, x: usize, y: usize, reward: i64)
        requires
            old(self).wf(),
            in_range(reward as int),
        ensures
            final(self).wf(),
            final(self)@ == old(self)@.with_exit(x as int, y as int, reward),
    {
        if x < self.width && y < self.height {
            proof {
                lemma_index_in_area(x as int, y as int, self.width as int, self.height as int);
            }
            let index: usize = y * self.width + x;
            self.exits[index] = Some(reward);
        }
    }

    /// Whether the state is on the grid and not a wall.
    pub fn valid_position(&self, state: &State) -> (valid: bool)
        requires
            self.wf(),
        ensures
            valid == self.is_valid(*state),
    {
        if state.x < self.width && state.y < self.height {
            proof {
                lemma_index_in_area(
                    state.x as int,
                    state.y as int,
                    self.width as int,
                    self.height as int,
                );
            }
            self.board[state.y * self.width + state.x] == 0
        } else {
            false
        }
    }

    /// Whether the state's cell is an exit.
    pub fn can_exit(&self, state: &State) -> (exit: bool)
        requires
            self.wf(),
        ensures
            exit == self.is_exit(*state),
    {
        if state.x < self.width && state.y < self.height {
            proof {
                lemma_index_in_area(
                    state.x as int,
                    state.y as int,
                    self.width as int,
                    self.height as int,
                );
            }
            self.exits[state.y * self.width + state.x].is_some()
        } else {
            false
        }
    }

    /// The immediate reward of an action: the exit's reward for `Exit` from
    /// an exit cell, zero for everything else.
    pub fn reward(&self, state: &State, action: Action) -> (reward: i64)
        requires
            self.wf(),
        ensures
            reward == self.spec_reward(*state, action),
            in_range(reward as int),
    {
        match action {
            Action::Exit => {
                if state.x < self.width && state.y < self.height {
                    proof {
                        lemma_index_in_area(
                            state.x as int,
                            state.y as int,
                            self.width as int,
                            self.height as int,
                        );
                    }
                    match self.exits[state.y * self.width + state.x] {
                        Some(reward) => reward,
                        None => 0,
                    }
                } else {
                    0
                }
            },
            Action::Move(_) => 0,
            Action::Nothing => 0,
        }
    }

    /// Moves one step. A move into a wall or off the grid stays where it
    /// began.
    pub fn move_to(&self, state: &State, direction: Direction) -> (target: State)
        requires
            self.wf(),
        ensures
            target == self.spec_move_to(*state, direction),
            !self.open_at(Self::step(*state, direction).0, Self::step(*state, direction).1)
                ==> target == *state,
            target == *state || self.is_valid(target),
    {
        match direction {
            Direction::Up => {
                if state.y > 0 {
                    let next = State::new(state.x, state.y - 1);
                    if self.valid_position(&next) {
                        return next;
                    }
                }
            },
            Direction::Down => {
                if self.height > 0 && state.y < self.height - 1 {
                    let next = State::new(state.x, state.y + 1);
                    if self.valid_position(&next) {
                        return next;
                    }
                }
            },
            Direction::Left => {
                if state.x > 0 {
                    let next = State::new(state.x - 1, state.y);
                    if self.valid_position(&next) {
                        return next;
                    }
                }
            },
            Direction::Right => {
                if self.width > 0 && state.x < self.width - 1 {
                    let next = State::new(state.x + 1, state.y);
                    if self.valid_position(&next) {
                        return next;
                    }
                }
            },
        }
        State::new(state.x, state.y)
    }

    /// The directions a move can take: the intended one first, then the two
    /// orthogonal to it. The opposite direction is never among them.
    pub fn get_moves(&self, direction: Direction) -> (moves: [Direction; 3])
        ensures
            moves@ == Self::spec_get_moves(direction),
            moves[0] == direction,
            moves[1].orthogonal_to(direction),
            moves[2].orthogonal_to(direction),
            moves[1] != moves[2],
            forall|i: int| 0 <= i < 3 ==> moves[i] != direction.opposite(),
    {
        match direction {
            Direction::Up | Direction::Down => [direction, Direction::Left, Direction::Right],
            Direction::Right | Direction::Left => [direction, Direction::Up, Direction::Down],
        }
    }

    /// The distribution over resulting actions, as weights out of `WHOLE`.
    ///
    /// `noise` is the probability that a move goes the intended way, not the
    /// probability of a slip: a move in direction `d` goes to `d` with weight
    /// `2 * noise` and to each orthogonal direction with weight
    /// `ONE - noise`. `Exit` is certain from an exit cell; from any other
    /// cell, and for `Nothing`, there is no transition.
    pub fn transition(&self, state: &State, action: Action, noise: i64) -> (entries: Option<
        Vec<(i64, Action)>,
    >)
        requires
            self.wf(),
            is_fraction(noise as int),
        ensures
            entries matches Some(v) ==> self.spec_transition(*state, action, noise as int)
                == Some(v@),
            entries is None ==> self.spec_transition(*state, action, noise as int) is None,
            action is Move ==> (entries matches Some(v) && v@.len() == 3 && v@[0].0 + v@[1].0
                + v@[2].0 == WHOLE),
    {
        match action {
            Action::Exit => {
                if self.can_exit(state) {
                    let mut result: Vec<(i64, Action)> = Vec::new();
                    result.push((WHOLE, Action::Exit));
                    assert(result@ =~= seq![(WHOLE, Action::Exit)]);
                    Some(result)
                } else {
                    None
                }
            },
            Action::Move(direction) => {
                let moves = self.get_moves(direction);
                let mut result: Vec<(i64, Action)> = Vec::new();
                result.push((2 * noise, Action::Move(moves[0])));
                let remainder: i64 = ONE - noise;
                let mut i: usize = 1;
                while i < 3
                    invariant
                        1 <= i <= 3,
                        remainder == ONE - noise,
                        is_fraction(noise as int),
                        result@.len() == i,
                        result@[0] == (
                            Self::intended_weight(noise as int) as i64,
                            Action::Move(moves[0]),
                        ),
                        forall|k: int|
                            1 <= k < i ==> result@[k] == (
                                Self::slip_weight(noise as int) as i64,
                                Action::Move(moves[k]),
                            ),
                    decreases 3 - i,
                {
                    result.push((remainder, Action::Move(moves[i])));
                    i += 1;
                }
                assert(result@ =~= self.spec_transition(*state, action, noise as int).unwrap());
                Some(result)
            },
            Action::Nothing => None,
        }
    }
}

} // verus!
