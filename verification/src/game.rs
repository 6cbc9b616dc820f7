use vstd::prelude::*;

verus! {

use vstd::set_lib::lemma_len_subset;

/// How many uniform draws over the whole grid a food placement attempts
/// before it falls back to enumerating the free cells.
const FOOD_DRAW_TRIES: u32 = 100;

/// Lifecycle tag of a game session: ticks mutate the snake only while `Running`.
#[derive(Clone, Copy, PartialEq, Eq, Structural, Debug)]
pub enum GameState {
    Paused,
    Running,
    GameOver,
}

/// The active movement direction of the snake; exactly one is active at a time.
#[derive(Clone, Copy, PartialEq, Eq, Structural, Debug)]
pub enum Direction {
    Up,
    Down,
    Left,
    Right,
}

/// A grid cell, identified by its column (`.0`) and row (`.1`).
#[derive(Clone, Copy, PartialEq, Eq, Structural, Debug)]
pub struct Point(pub i32, pub i32);

/// Horizontal component of the unit displacement of a direction.
pub open spec fn dx(d: Direction) -> int {
    match d {
        Direction::Up => 0,
        Direction::Down => 0,
        Direction::Left => -1,
        Direction::Right => 1,
    }
}

/// Vertical component of the unit displacement of a direction.
/// Rows grow downward, so `Up` decreases the row.
pub open spec fn dy(d: Direction) -> int {
    match d {
        Direction::Up => -1,
        Direction::Down => 1,
        Direction::Left => 0,
        Direction::Right => 0,
    }
}

/// The direction pointing exactly the other way.
pub open spec fn opposite(d: Direction) -> Direction {
    match d {
        Direction::Up => Direction::Down,
        Direction::Down => Direction::Up,
        Direction::Left => Direction::Right,
        Direction::Right => Direction::Left,
    }
}

/// Two cells are grid-adjacent when they differ by exactly one unit step.
pub open spec fn adjacent(p: Point, q: Point) -> bool {
    ||| p.0 == q.0 && (p.1 - q.1 == 1 || q.1 - p.1 == 1)
    ||| p.1 == q.1 && (p.0 - q.0 == 1 || q.0 - p.0 == 1)
}

/// The snake a fresh session starts with: three cells in the top row,
/// head first, moving right.
pub open spec fn initial_snake() -> Seq<Point> {
    seq![Point(2, 0), Point(1, 0), Point(0, 0)]
}

/// The highscore a comparison falls back on when none is known.
pub open spec fn highscore_or_zero(h: Option<i32>) -> int {
    match h {
        Some(v) => v as int,
        None => 0,
    }
}

/// The game session: a state machine over snake, food, score and lifecycle
/// state, advanced by `update` and steered by the `move_*` commands.
pub struct GameContext {
    pub snake: Vec<Point>,
    pub snake_dir: Direction,
    pub food: Point,
    pub score: i32,
    pub state: GameState,
    pub highscore: Option<i32>,
    pub rng: rand::rngs::ThreadRng,
    pub width: i32,
    pub height: i32,
}

impl GameContext {
    /// Number of cells of the grid.
    pub open spec fn cells(self) -> int {
        self.width * self.height
    }

    /// The grid is wide enough for the initial snake and small enough that
    /// cell counts (and hence the score) fit the machine integers used.
    pub open spec fn grid_ok(self) -> bool {
        &&& 3 <= self.width
        &&& 1 <= self.height
        &&& self.width * self.height <= i32::MAX
    }

    /// `p` lies on the grid.
    pub open spec fn in_bounds(self, p: Point) -> bool {
        0 <= p.0 < self.width && 0 <= p.1 < self.height
    }

    /// The snake is a chain of at least three pairwise-distinct cells of the
    /// grid, consecutive ones grid-adjacent, and cannot exceed the grid size.
    pub open spec fn snake_ok(self) -> bool {
        &&& 3 <= self.snake@.len()
        &&& self.snake@.len() <= self.cells()
        &&& forall|i: int| 0 <= i < self.snake@.len() ==> self.in_bounds(#[trigger] self.snake@[i])
        &&& forall|i: int|
            0 <= i < self.snake@.len() - 1 ==> adjacent(
                #[trigger] self.snake@[i],
                self.snake@[i + 1],
            )
        &&& self.snake@.no_duplicates()
    }

    /// The food lies on the grid, and off the snake whenever a free cell
    /// exists at all.
    pub open spec fn food_ok(self) -> bool {
        &&& self.in_bounds(self.food)
        &&& self.snake@.len() < self.cells() ==> !self.snake@.contains(self.food)
    }

    /// The score counts the cells eaten since the last reset, so it stays
    /// below the snake's length.
    pub open spec fn score_ok(self) -> bool {
        0 <= self.score && self.score + 3 <= self.snake@.len()
    }

    /// Well-formedness of a session: established by `new`, preserved by every
    /// mutating operation.
    pub open spec fn wf(self) -> bool {
        self.grid_ok() && self.snake_ok() && self.food_ok() && self.score_ok()
    }

    /// Column the head would move to on the next running tick.
    pub open spec fn next_x(self) -> int {
        self.snake@[0].0 + dx(self.snake_dir)
    }

    /// Row the head would move to on the next running tick.
    pub open spec fn next_y(self) -> int {
        self.snake@[0].1 + dy(self.snake_dir)
    }

    /// The cell the head moves to next; meaningful when that cell is on the
    /// grid (its coordinates then fit `i32` exactly).
    pub open spec fn next_head(self) -> Point {
        Point(self.next_x() as i32, self.next_y() as i32)
    }

    /// The next head position is fatal: off the grid, or on the current body.
    pub open spec fn next_blocked(self) -> bool {
        ||| self.next_x() < 0
        ||| self.next_x() >= self.width
        ||| self.next_y() < 0
        ||| self.next_y() >= self.height
        ||| self.snake@.contains(self.next_head())
    }

    /// The next running tick lands on the food (and hence is not fatal).
    pub open spec fn eats(self) -> bool {
        &&& !self.next_blocked()
        &&& self.next_x() == self.food.0
        &&& self.next_y() == self.food.1
    }

    /// A fatal collision this tick would set a new highscore.
    pub open spec fn new_high(self) -> bool {
        self.score > highscore_or_zero(self.highscore)
    }

    /// A requested turn is accepted unless it is the exact reverse of the
    /// active direction, or would step the head onto the second segment.
    pub open spec fn turn_allowed(self, d: Direction) -> bool {
        &&& self.snake_dir != opposite(d)
        &&& !(self.snake@[1].0 == self.snake@[0].0 + dx(d) && self.snake@[1].1 == self.snake@[0].1
            + dy(d))
    }

    /// What one running tick does. On a fatal next head position the session
    /// only transitions to GameOver, updating the highscore and requesting
    /// its persistence when the score beats it. Otherwise the head advances;
    /// eating the food grows the snake and increments the score, any other
    /// move drops the tail. `persist` is the highscore value the caller is
    /// asked to write to the store, if any.
    pub open spec fn tick_post(pre: GameContext, post: GameContext, persist: Option<i32>) -> bool {
        &&& post.width == pre.width
        &&& post.height == pre.height
        &&& post.snake_dir == pre.snake_dir
        &&& if pre.next_blocked() {
            &&& post.state == GameState::GameOver
            &&& post.snake@ == pre.snake@
            &&& post.food == pre.food
            &&& post.score == pre.score
            &&& post.rng == pre.rng
            &&& post.highscore == (if pre.new_high() {
                Some(pre.score)
            } else {
                pre.highscore
            })
            &&& persist == (if pre.new_high() {
                Some(pre.score)
            } else {
                None::<i32>
            })
        } else {
            &&& post.state == GameState::Running
            &&& post.highscore == pre.highscore
            &&& persist == None::<i32>
            &&& if pre.eats() {
                &&& post.snake@ == seq![pre.next_head()] + pre.snake@
                &&& post.score == pre.score + 1
            } else {
                &&& post.snake@ == seq![pre.next_head()] + pre.snake@.drop_last()
                &&& post.food == pre.food
                &&& post.score == pre.score
                &&& post.rng == pre.rng
            }
        }
    }

    /// Everything a turn command must leave alone: all fields but the active
    /// direction.
    pub open spec fn same_but_dir(pre: GameContext, post: GameContext) -> bool {
        &&& post.snake@ == pre.snake@
        &&& post.food == pre.food
        &&& post.score == pre.score
        &&& post.state == pre.state
        &&& post.highscore == pre.highscore
        &&& post.width == pre.width
        &&& post.height == pre.height
        &&& post.rng == pre.rng
    }

    /// Everything a pause command must leave alone: all fields but the
    /// lifecycle state.
    pub open spec fn same_but_state(pre: GameContext, post: GameContext) -> bool {
        &&& post.snake@ == pre.snake@
        &&& post.snake_dir == pre.snake_dir
        &&& post.food == pre.food
        &&& post.score == pre.score
        &&& post.highscore == pre.highscore
        &&& post.width == pre.width
        &&& post.height == pre.height
        &&& post.rng == pre.rng
    }

    /// No field of the session changed at all.
    pub open spec fn unchanged(pre: GameContext, post: GameContext) -> bool {
        Self::same_but_state(pre, post) && post.state == pre.state
    }
}

/// Whether `v` holds the cell `p`.
fn snake_holds(v: &Vec<Point>, p: Point) -> (b: bool)
    ensures
        b == v@.contains(p),
{
    let mut i: usize = 0;
    while i < v.len()
        invariant
            i <= v@.len(),
            forall|j: int| 0 <= j < i ==> v@[j] != p,
        decreases v@.len() - i,
    {
        if v[i] == p {
            assert(v@[i as int] == p);
            return true;
        }
        i += 1;
    }
    assert(!v@.contains(p));
    false
}

impl GameContext {
    /// Request a turn upward; silently ignored when the turn is not allowed.
    pub fn move_up(&mut self)
        requires
            old(self).wf(),
        ensures
            final(self).wf(),
            final(self).snake_dir == (if old(self).turn_allowed(Direction::Up) {
                Direction::Up
            } else {
                old(self).snake_dir
            }),
            Self::same_but_dir(*old(self), *final(self)),
    {
        if !matches!(self.snake_dir, Direction::Down) && !(self.snake[1].0 == self.snake[0].0
            && self.snake[1].1 == self.snake[0].1 - 1) {
            self.snake_dir = Direction::Up;
        }
    }

    /// Request a turn downward; silently ignored when the turn is not allowed.
    pub fn move_down(&mut self)
        requires
            old(self).wf(),
        ensures
            final(self).wf(),
            final(self).snake_dir == (if old(self).turn_allowed(Direction::Down) {
                Direction::Down
            } else {
                old(self).snake_dir
            }),
            Self::same_but_dir(*old(self), *final(self)),
    {
        if !matches!(self.snake_dir, Direction::Up) && !(self.snake[1].0 == self.snake[0].0
            && self.snake[1].1 == self.snake[0].1 + 1) {
            self.snake_dir = Direction::Down;
        }
    }

    /// Request a turn to the right; silently ignored when not allowed.
    pub fn move_right(&mut self)
        requires
            old(self).wf(),
        ensures
            final(self).wf(),
            final(self).snake_dir == (if old(self).turn_allowed(Direction::Right) {
                Direction::Right
            } else {
                old(self).snake_dir
            }),
            Self::same_but_dir(*old(self), *final(self)),
    {
        if !matches!(self.snake_dir, Direction::Left) && !(self.snake[1].0 == self.snake[0].0 + 1
            && self.snake[1].1 == self.snake[0].1) {
            self.snake_dir = Direction::Right;
        }
    }

    /// Request a turn to the left; silently ignored when not allowed.
    pub fn move_left(&mut self)
        requires
            old(self).wf(),
        ensures
            final(self).wf(),
            final(self).snake_dir == (if old(self).turn_allowed(Direction::Left) {
                Direction::Left
            } else {
                old(self).snake_dir
            }),
            Self::same_but_dir(*old(self), *final(self)),
    {
        if !matches!(self.snake_dir, Direction::Right) && !(self.snake[1].0 == self.snake[0].0 - 1
            && self.snake[1].1 == self.snake[0].1) {
            self.snake_dir = Direction::Left;
        }
    }
}

/// Cells of column `x` whose row lies below `h`.
spec fn col_set(x: i32, h: i32) -> Set<Point> {
    Set::new(|p: Point| p.0 == x && 0 <= p.1 < h)
}

/// Cells of the grid `[0, w) x [0, h)`, as a set.
spec fn grid_set(w: i32, h: i32) -> Set<Point> {
    Set::new(|p: Point| 0 <= p.0 < w && 0 <= p.1 < h)
}

/// The union of two disjoint finite sets holds exactly the cells of both.
proof fn lemma_union_len_disjoint<A>(s1: Set<A>, s2: Set<A>)
    requires
        s1.finite(),
        s2.finite(),
        s1.disjoint(s2),
    ensures
        s1.union(s2).finite(),
        s1.union(s2).len() == s1.len() + s2.len(),
    decreases s2.len(),
{
    if s2.is_empty() {
        assert(s1.union(s2) =~= s1);
    } else {
        let a = s2.choose();
        assert(s2.contains(a));
        lemma_union_len_disjoint(s1, s2.remove(a));
        assert(s1.union(s2) =~= s1.union(s2.remove(a)).insert(a));
        assert(!s1.union(s2.remove(a)).contains(a));
    }
}

/// A column of height `h` holds `h` cells.
proof fn lemma_col_set_len(x: i32, h: i32)
    requires
        0 <= h,
    ensures
        col_set(x, h).finite(),
        col_set(x, h).len() == h,
    decreases h,
{
    if h == 0 {
        assert(col_set(x, 0) =~= Set::<Point>::empty());
    } else {
        let h1 = (h - 1) as i32;
        lemma_col_set_len(x, h1);
        assert(!col_set(x, h1).contains(Point(x, h1)));
        assert(col_set(x, h) =~= col_set(x, h1).insert(Point(x, h1)));
    }
}

/// The grid `[0, w) x [0, h)` holds exactly `w * h` cells.
proof fn lemma_grid_set_len(w: i32, h: i32)
    requires
        0 <= w,
        0 <= h,
    ensures
        grid_set(w, h).finite(),
        grid_set(w, h).len() == w * h,
    decreases w,
{
    if w == 0 {
        assert(grid_set(0, h) =~= Set::<Point>::empty());
        assert(0 * h == 0) by (nonlinear_arith);
    } else {
        let w1 = (w - 1) as i32;
        lemma_grid_set_len(w1, h);
        lemma_col_set_len(w1, h);
        assert(grid_set(w1, h).disjoint(col_set(w1, h)));
        lemma_union_len_disjoint(grid_set(w1, h), col_set(w1, h));
        assert(grid_set(w, h) =~= grid_set(w1, h).union(col_set(w1, h)));
        assert(w1 * h + h == w * h) by (nonlinear_arith)
            requires
                w1 == w - 1,
        ;
    }
}

/// A chain of pairwise-distinct cells of a `w` by `h` grid cannot hold more
/// cells than the grid; strictly fewer if some grid cell is off the chain.
proof fn lemma_occupancy(s: Seq<Point>, w: i32, h: i32)
    requires
        0 <= w,
        0 <= h,
        s.no_duplicates(),
        forall|i: int| 0 <= i < s.len() ==> grid_set(w, h).contains(#[trigger] s[i]),
    ensures
        s.len() <= w * h,
        forall|q: Point| grid_set(w, h).contains(q) && !s.contains(q) ==> s.len() < w * h,
{
    s.unique_seq_to_set();
    lemma_grid_set_len(w, h);
    assert forall|p: Point| s.to_set().contains(p) implies grid_set(w, h).contains(p) by {
        let i = choose|i: int| 0 <= i < s.len() && s[i] == p;
        assert(grid_set(w, h).contains(s[i]));
    }
    lemma_len_subset(s.to_set(), grid_set(w, h));
    assert forall|q: Point| grid_set(w, h).contains(q) && !s.contains(q) implies s.len() < w
        * h by {
        let bigger = s.to_set().insert(q);
        assert(bigger.subset_of(grid_set(w, h)));
        lemma_len_subset(bigger, grid_set(w, h));
        assert(bigger.len() == s.to_set().len() + 1);
    }
}

/// When the chain leaves part of the grid uncovered, some grid cell is free.
proof fn lemma_free_cell_exists(s: Seq<Point>, w: i32, h: i32)
    requires
        0 <= w,
        0 <= h,
        s.no_duplicates(),
        forall|i: int| 0 <= i < s.len() ==> grid_set(w, h).contains(#[trigger] s[i]),
        s.len() < w * h,
    ensures
        exists|q: Point| grid_set(w, h).contains(q) && !s.contains(q),
{
    if !(exists|q: Point| grid_set(w, h).contains(q) && !s.contains(q)) {
        s.unique_seq_to_set();
        lemma_grid_set_len(w, h);
        assert(grid_set(w, h).subset_of(s.to_set()));
        lemma_len_subset(grid_set(w, h), s.to_set());
        assert(false);
    }
}

impl GameContext {
    /// Construct a session on a `width` by `height` grid: the initial snake
    /// moving right, score zero, paused, with the given known highscore and
    /// randomly placed food.
    pub fn new(width: i32, height: i32, highscore: Option<i32>) -> (g: GameContext)
        requires
            3 <= width,
            1 <= height,
            width * height <= i32::MAX,
        ensures
            g.wf(),
            g.width == width,
            g.height == height,
            g.snake@ == initial_snake(),
            g.snake_dir == Direction::Right,
            g.score == 0,
            g.state == GameState::Paused,
            g.highscore == highscore,
            g.in_bounds(g.food),
            g.snake@.len() < g.cells() ==> !g.snake@.contains(g.food),
    {
        let mut snake: Vec<Point> = Vec::new();
        snake.push(Point(2, 0));
        snake.push(Point(1, 0));
        snake.push(Point(0, 0));
        let mut g = GameContext {
            snake,
            snake_dir: Direction::Right,
            food: Point(0, 0),
            score: 0,
            state: GameState::Paused,
            highscore,
            rng: crate::rng::new_rng(),
            width,
            height,
        };
        proof {
            assert(g.snake@ =~= initial_snake());
            assert(3 <= width * height) by (nonlinear_arith)
                requires
                    3 <= width,
                    1 <= height,
            ;
            assert(g.snake@.no_duplicates());
        }
        g.place_food();
        g
    }

    /// Pick a fresh food cell: up to `FOOD_DRAW_TRIES` uniform draws over the
    /// whole grid, rejecting occupied cells; when the board is nearly
    /// saturated, or every draw was rejected, a uniform draw from the
    /// enumerated free cells instead. When the snake covers the whole grid
    /// there is nothing to place and the food is left where it was.
    fn place_food(&mut self)
        requires
            old(self).grid_ok(),
            1 <= old(self).snake@.len() <= old(self).cells(),
            forall|i: int|
                0 <= i < old(self).snake@.len() ==> old(self).in_bounds(
                    #[trigger] old(self).snake@[i],
                ),
            old(self).snake@.no_duplicates(),
            old(self).in_bounds(old(self).food),
        ensures
            final(self).snake@ == old(self).snake@,
            final(self).snake_dir == old(self).snake_dir,
            final(self).score == old(self).score,
            final(self).state == old(self).state,
            final(self).highscore == old(self).highscore,
            final(self).width == old(self).width,
            final(self).height == old(self).height,
            final(self).in_bounds(final(self).food),
            old(self).snake@.len() < old(self).cells() ==> !old(self).snake@.contains(
                final(self).food,
            ),
    {
        let w = self.width;
        let h = self.height;
        if (w as i64) * (h as i64) > (self.snake.len() as i64) + 20 {
            let mut tries: u32 = 0;
            while tries < FOOD_DRAW_TRIES
                invariant
                    old(self).grid_ok(),
                    w == self.width,
                    h == self.height,
                    self.width == old(self).width,
                    self.height == old(self).height,
                    self.snake@ == old(self).snake@,
                    self.snake_dir == old(self).snake_dir,
                    self.food == old(self).food,
                    self.score == old(self).score,
                    self.state == old(self).state,
                    self.highscore == old(self).highscore,
                decreases FOOD_DRAW_TRIES - tries,
            {
                let x = crate::rng::rand_below(&mut self.rng, w as usize);
                let y = crate::rng::rand_below(&mut self.rng, h as usize);
                let cand = Point(x as i32, y as i32);
                if !snake_holds(&self.snake, cand) {
                    self.food = cand;
                    return ;
                }
                tries += 1;
            }
        }
        let mut available: Vec<Point> = Vec::new();
        let mut x: i32 = 0;
        while x < w
            invariant
                0 <= x <= w,
                old(self).grid_ok(),
                w == self.width,
                h == self.height,
                self.width == old(self).width,
                self.height == old(self).height,
                self.snake@ == old(self).snake@,
                self.snake_dir == old(self).snake_dir,
                self.food == old(self).food,
                self.score == old(self).score,
                self.state == old(self).state,
                self.highscore == old(self).highscore,
                forall|k: int|
                    0 <= k < available@.len() ==> self.in_bounds(#[trigger] available@[k])
                        && !self.snake@.contains(available@[k]),
                forall|p: Point|
                    self.in_bounds(p) && p.0 < x && !self.snake@.contains(p)
                        ==> available@.contains(p),
            decreases w - x,
        {
            let mut y: i32 = 0;
            while y < h
                invariant
                    0 <= x < w,
                    0 <= y <= h,
                    old(self).grid_ok(),
                    w == self.width,
                    h == self.height,
                    self.width == old(self).width,
                    self.height == old(self).height,
                    self.snake@ == old(self).snake@,
                    self.snake_dir == old(self).snake_dir,
                    self.food == old(self).food,
                    self.score == old(self).score,
                    self.state == old(self).state,
                    self.highscore == old(self).highscore,
                    forall|k: int|
                        0 <= k < available@.len() ==> self.in_bounds(#[trigger] available@[k])
                            && !self.snake@.contains(available@[k]),
                    forall|p: Point|
                        self.in_bounds(p) && (p.0 < x || (p.0 == x && p.1 < y))
                            && !self.snake@.contains(p) ==> available@.contains(p),
                decreases h - y,
            {
                let cand = Point(x, y);
                if !snake_holds(&self.snake, cand) {
                    let ghost old_av = available@;
                    available.push(cand);
                    proof {
                        assert forall|p: Point| old_av.contains(p) implies available@.contains(
                            p,
                        ) by {
                            let k = choose|k: int| 0 <= k < old_av.len() && old_av[k] == p;
                            assert(available@[k] == p);
                        }
                        assert(available@[available@.len() - 1] == cand);
                        assert(available@.contains(cand));
                    }
                }
                y += 1;
            }
            x += 1;
        }
        proof {
            if self.snake@.len() < self.cells() {
                assert forall|i: int|
                    0 <= i < self.snake@.len() implies grid_set(w, h).contains(
                    #[trigger] self.snake@[i],
                ) by {
                    assert(self.in_bounds(self.snake@[i]));
                }
                lemma_free_cell_exists(self.snake@, w, h);
                let q = choose|q: Point|
                    grid_set(w, h).contains(q) && !self.snake@.contains(q);
                assert(self.in_bounds(q));
                assert(available@.contains(q));
                assert(available@.len() > 0);
            }
        }
        if available.len() > 0 {
            let i = crate::rng::rand_below(&mut self.rng, available.len());
            let f = available[i];
            proof {
                assert(available@.contains(available@[i as int]));
            }
            self.food = f;
        }
    }

    /// Advance the simulation by one step; the session must be `Running`.
    /// Returns the highscore value the caller should persist, if any.
    pub fn update_running(&mut self) -> (persist: Option<i32>)
        requires
            old(self).wf(),
            old(self).state == GameState::Running,
        ensures
            final(self).wf(),
            GameContext::tick_post(*old(self), *final(self), persist),
            old(self).snake@.len() <= final(self).snake@.len() <= old(self).snake@.len() + 1,
    {
        proof {
            assert(self.in_bounds(self.snake@[0]));
        }
        let head = self.snake[0];
        let next = match self.snake_dir {
            Direction::Up => Point(head.0, head.1 - 1),
            Direction::Down => Point(head.0, head.1 + 1),
            Direction::Right => Point(head.0 + 1, head.1),
            Direction::Left => Point(head.0 - 1, head.1),
        };
        proof {
            assert(next == old(self).next_head());
        }
        if next.0 < 0 || next.0 >= self.width || next.1 < 0 || next.1 >= self.height
            || snake_holds(&self.snake, next) {
            let hs = match self.highscore {
                Some(v) => v,
                None => 0,
            };
            let mut persist: Option<i32> = None;
            if self.score > hs {
                self.highscore = Some(self.score);
                persist = Some(self.score);
            }
            self.state = GameState::GameOver;
            return persist;
        }
        proof {
            let s = self.snake@;
            assert forall|i: int| 0 <= i < s.len() implies grid_set(
                self.width,
                self.height,
            ).contains(#[trigger] s[i]) by {
                assert(self.in_bounds(s[i]));
            }
            lemma_occupancy(s, self.width, self.height);
            assert(grid_set(self.width, self.height).contains(next));
            assert(s.len() < self.cells());
        }
        let ghost pre_snake = self.snake@;
        self.snake.insert(0, next);
        proof {
            assert(self.snake@ =~= seq![next] + pre_snake);
            assert(self.snake@.no_duplicates()) by {
                assert(forall|i: int|
                    1 <= i < self.snake@.len() ==> #[trigger] self.snake@[i] == pre_snake[i - 1]);
            }
            assert(forall|i: int|
                0 <= i < self.snake@.len() ==> self.in_bounds(#[trigger] self.snake@[i]));
            assert(adjacent(self.snake@[0], self.snake@[1]));
            assert(forall|i: int|
                0 <= i < self.snake@.len() - 1 ==> adjacent(
                    #[trigger] self.snake@[i],
                    self.snake@[i + 1],
                ));
        }
        if next == self.food {
            self.score = self.score + 1;
            self.place_food();
            proof {
                assert(!(self.snake@.len() < self.cells()) || !self.snake@.contains(self.food));
            }
            None
        } else {
            let ghost grown = self.snake@;
            self.snake.pop();
            proof {
                assert(self.snake@ == grown.drop_last());
                assert(self.snake@ =~= seq![next] + pre_snake.drop_last());
                assert(self.snake@.no_duplicates()) by {
                    assert(forall|i: int|
                        0 <= i < self.snake@.len() ==> #[trigger] self.snake@[i] == grown[i]);
                }
                assert(forall|i: int|
                    0 <= i < self.snake@.len() - 1 ==> adjacent(
                        #[trigger] self.snake@[i],
                        self.snake@[i + 1],
                    ));
                assert(!self.snake@.contains(self.food)) by {
                    assert(!pre_snake.contains(self.food));
                    assert(forall|i: int|
                        1 <= i < self.snake@.len() ==> #[trigger] self.snake@[i] == pre_snake[i
                            - 1]);
                }
            }
            None
        }
    }

    /// Advance the simulation by one step when `Running`; a no-op while
    /// `Paused` or `GameOver`. Returns the highscore value the caller should
    /// persist, if any.
    pub fn update(&mut self) -> (persist: Option<i32>)
        requires
            old(self).wf(),
        ensures
            final(self).wf(),
            old(self).state == GameState::Running ==> GameContext::tick_post(
                *old(self),
                *final(self),
                persist,
            ),
            old(self).state != GameState::Running ==> GameContext::unchanged(
                *old(self),
                *final(self),
            ) && persist == None::<i32>,
            old(self).snake@.len() <= final(self).snake@.len() <= old(self).snake@.len() + 1,
    {
        match self.state {
            GameState::Running => self.update_running(),
            GameState::Paused => None,
            GameState::GameOver => None,
        }
    }

    /// Swap between `Running` and `Paused`. From `GameOver`, reset the
    /// session instead: initial snake moving right, score zero, fresh food,
    /// the highscore replaced by `stored_highscore` (the value freshly read
    /// from the persistence store, absent when that read failed), and the
    /// state left `Paused`.
    pub fn toggle_pause(&mut self, stored_highscore: Option<i32>)
        requires
            old(self).wf(),
        ensures
            final(self).wf(),
            old(self).state == GameState::Running ==> GameContext::same_but_state(
                *old(self),
                *final(self),
            ) && final(self).state == GameState::Paused,
            old(self).state == GameState::Paused ==> GameContext::same_but_state(
                *old(self),
                *final(self),
            ) && final(self).state == GameState::Running,
            old(self).state == GameState::GameOver ==> ({
                &&& final(self).state == GameState::Paused
                &&& final(self).snake@ == initial_snake()
                &&& final(self).snake_dir == Direction::Right
                &&& final(self).score == 0
                &&& final(self).highscore == stored_highscore
                &&& final(self).width == old(self).width
                &&& final(self).height == old(self).height
            }),
    {
        match self.state {
            GameState::Running => {
                self.state = GameState::Paused;
            },
            GameState::Paused => {
                self.state = GameState::Running;
            },
            GameState::GameOver => {
                let mut snake: Vec<Point> = Vec::new();
                snake.push(Point(2, 0));
                snake.push(Point(1, 0));
                snake.push(Point(0, 0));
                self.snake = snake;
                self.snake_dir = Direction::Right;
                self.score = 0;
                self.highscore = stored_highscore;
                self.state = GameState::Paused;
                proof {
                    assert(self.snake@ =~= initial_snake());
                    assert(3 <= self.width * self.height) by (nonlinear_arith)
                        requires
                            3 <= self.width,
                            1 <= self.height,
                    ;
                    assert(self.snake@.no_duplicates());
                }
                self.place_food();
            },
        }
    }
}

/// Law: whatever turn is requested, the direction active after the command is
/// never the exact opposite of the direction active before it.
pub proof fn lemma_turn_no_reversal(pre: GameContext, d: Direction)
    ensures
        ({
            let nd = if pre.turn_allowed(d) {
                d
            } else {
                pre.snake_dir
            };
            nd != opposite(pre.snake_dir)
        }),
{
}

} // verus!
