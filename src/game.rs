use vstd::prelude::*;
use crate::canvas::{Canvas, in_bounds, pixel_index, lemma_paint_cell};
use crate::color::{Color, BG_COLOR, FOOD_COLOR, HEAD_COLOR, TAIL_COLOR};
use crate::vec2::{Vec2, is_direction, sum};
use rand::Rng;

verus! {

/// What the game state means: the board, the pending direction and the
/// deadlines, with sizes as integers and sequences in place of vectors.
pub struct Board {
    pub tick: int,
    pub food_tick: int,
    pub next_update: int,
    pub next_food: int,
    pub fps_update: int,
    pub width: int,
    pub height: int,
    pub v: Vec2,
    pub head: Vec2,
    pub tail: Seq<Vec2>,
    pub food: Seq<Vec2>,
}

/// `now + interval`, or the largest instant where that does not fit.
pub open spec fn deadline_spec(now: int, interval: int) -> int {
    if now + interval <= u64::MAX {
        now + interval
    } else {
        u64::MAX as int
    }
}

impl Board {
    /// Whether `p` is a cell of the grid.
    pub open spec fn in_grid(self, p: Vec2) -> bool {
        0 <= p.0 < self.width && 0 <= p.1 < self.height
    }

    /// The cell that the head moves to on the next step.
    pub open spec fn next_head(self) -> Vec2 {
        sum(self.head, self.v)
    }

    /// Whether the next step ends the game: the head would leave the grid,
    /// or run into a tail cell other than the last one.
    pub open spec fn step_blocked(self) -> bool {
        !self.in_grid(self.next_head()) || self.tail.subrange(0, self.tail.len() - 1).contains(
            self.next_head(),
        )
    }

    /// Whether the next step lands on food.
    pub open spec fn eats(self) -> bool {
        self.food.contains(self.next_head())
    }

    /// The board after a step that is not blocked: the tail takes the old
    /// head at its front and keeps all its cells if food was eaten, all but
    /// the last otherwise; the eaten cell leaves the food.
    pub open spec fn stepped(self) -> Board {
        let nh = self.next_head();
        Board {
            head: nh,
            tail: if self.eats() {
                seq![self.head] + self.tail
            } else {
                seq![self.head] + self.tail.subrange(0, self.tail.len() - 1)
            },
            food: if self.eats() {
                self.food.remove(self.food.index_of(nh))
            } else {
                self.food
            },
            ..self
        }
    }

    /// Whether too few cells are left to place food: the tail, the food,
    /// and two cells more reach the size of the grid.
    pub open spec fn saturated(self) -> bool {
        self.tail.len() + self.food.len() + 2 >= self.width * self.height
    }

    /// Whether `p` holds neither the head, nor a tail cell, nor food.
    pub open spec fn free(self, p: Vec2) -> bool {
        p != self.head && !self.tail.contains(p) && !self.food.contains(p)
    }

    /// The cell with row-major index `i`.
    pub open spec fn cell(self, i: int) -> Vec2 {
        Vec2((i % self.width) as i32, (i / self.width) as i32)
    }

    /// Whether some cell of the grid is free.
    pub open spec fn has_free_cell(self) -> bool {
        exists|i: int| 0 <= i < self.width * self.height && self.free(#[trigger] self.cell(i))
    }

    /// The board with food added at `p`.
    pub open spec fn with_food(self, p: Vec2) -> Board {
        Board { food: self.food.push(p), ..self }
    }

    /// The board once the step deadline is checked at `now`: stepped and
    /// rescheduled if the deadline has passed, unchanged otherwise. Only
    /// meaningful where that step is not blocked.
    pub open spec fn after_move(self, now: int) -> Board {
        if now > self.next_update {
            Board { next_update: deadline_spec(now, self.tick), ..self.stepped() }
        } else {
            self
        }
    }

    /// Whether food placement is due at `now`: no food is left, or the
    /// food deadline has passed.
    pub open spec fn food_due(self, now: int) -> bool {
        self.food.len() == 0 || now > self.next_food
    }

    /// Whether `post` and `r` are an outcome of one update at `now`: a due
    /// step that is blocked ends the game with nothing changed; otherwise,
    /// where food is due, a saturated or full board ends the game after the
    /// step, and else food goes on a free cell and its deadline moves.
    pub open spec fn updated(self, now: int, r: bool, post: Board) -> bool {
        if now > self.next_update && self.step_blocked() {
            r && post == self
        } else {
            let a = self.after_move(now);
            if !a.food_due(now) {
                !r && post == a
            } else if a.saturated() || !a.has_free_cell() {
                r && post == a
            } else {
                !r && exists|p: Vec2|
                    a.in_grid(p) && a.free(p) && post == (Board {
                        next_food: deadline_spec(now, a.food_tick),
                        ..a.with_food(p)
                    })
            }
        }
    }

    /// Whether the head, tail and food are laid out as the game keeps
    /// them: the head on the grid and off the tail, the tail not empty, the
    /// food cells distinct and off the snake.
    pub open spec fn wf(self) -> bool {
        &&& 0 < self.width
        &&& 0 < self.height
        &&& self.width * self.height <= i32::MAX
        &&& is_direction(self.v)
        &&& self.in_grid(self.head)
        &&& self.tail.len() >= 1
        &&& !self.tail.contains(self.head)
        &&& self.food.no_duplicates()
        &&& forall|p: Vec2| #[trigger]
            self.food.contains(p) ==> p != self.head && !self.tail.contains(p)
    }
}

/// The game: the snake, the food, the pending direction, and the deadlines
/// (in milliseconds) of the next step, the next food placement and the next
/// frame-rate report.
pub struct State {
    pub tick: u64,
    pub food_tick: u64,
    pub next_update: u64,
    pub next_food: u64,
    pub fps_update: u64,
    pub width: i32,
    pub height: i32,
    pub v: Vec2,
    pub head: Vec2,
    pub tail: Vec<Vec2>,
    pub food: Vec<Vec2>,
}

impl View for State {
    type V = Board;

    open spec fn view(&self) -> Board {
        Board {
            tick: self.tick as int,
            food_tick: self.food_tick as int,
            next_update: self.next_update as int,
            next_food: self.next_food as int,
            fps_update: self.fps_update as int,
            width: self.width as int,
            height: self.height as int,
            v: self.v,
            head: self.head,
            tail: self.tail@,
            food: self.food@,
        }
    }
}

/// Relies on rand's `thread_rng().gen_range(0..n)`: a value in `[0, n)`;
/// the range must not be empty.
#[verifier::external_body]
fn random_below(n: i32) -> (r: i32)
    requires
        0 < n,
    ensures
        0 <= r < n,
{
    rand::thread_rng().gen_range(0..n)
}

/// `now + interval`, saturating at the largest instant.
fn deadline(now: u64, interval: u64) -> (r: u64)
    ensures
        r == deadline_spec(now as int, interval as int),
{
    if now <= u64::MAX - interval {
        now + interval
    } else {
        u64::MAX
    }
}

/// Whether `s` holds `p`.
fn holds(s: &Vec<Vec2>, upto: usize, p: Vec2) -> (r: bool)
    requires
        upto <= s@.len(),
    ensures
        r == s@.subrange(0, upto as int).contains(p),
{
    let mut i: usize = 0;
    while i < upto
        invariant
            i <= upto <= s@.len(),
            !s@.subrange(0, i as int).contains(p),
        decreases upto - i,
    {
        if s[i] == p {
            assert(s@.subrange(0, upto as int)[i as int] == p);
            return true;
        }
        i = i + 1;
        assert(s@.subrange(0, i as int) =~= s@.subrange(0, i - 1).push(s@[i - 1]));
    }
    false
}

/// The first index at which `s` holds `p`, if any.
fn position(s: &Vec<Vec2>, p: Vec2) -> (r: Option<usize>)
    ensures
        match r {
            Some(i) => i < s@.len() && s@[i as int] == p,
            None => !s@.contains(p),
        },
{
    let mut i: usize = 0;
    while i < s.len()
        invariant
            i <= s@.len(),
            forall|k: int| 0 <= k < i ==> s@[k] != p,
        decreases s@.len() - i,
    {
        if s[i] == p {
            return Some(i);
        }
        i = i + 1;
    }
    None
}

proof fn lemma_remove_keeps_distinct(s: Seq<Vec2>, idx: int)
    requires
        s.no_duplicates(),
        0 <= idx < s.len(),
    ensures
        s.remove(idx).no_duplicates(),
        forall|p: Vec2| #[trigger] s.remove(idx).contains(p) <==> (s.contains(p) && p != s[idx]),
{
    let r = s.remove(idx);
    assert forall|a: int, b: int| 0 <= a < b < r.len() implies r[a] != r[b] by {
        let oa = if a < idx { a } else { a + 1 };
        let ob = if b < idx { b } else { b + 1 };
        assert(r[a] == s[oa] && r[b] == s[ob]);
    }
    assert forall|p: Vec2| #[trigger] r.contains(p) <==> (s.contains(p) && p != s[idx]) by {
        if r.contains(p) {
            let k = choose|k: int| 0 <= k < r.len() && r[k] == p;
            let ok = if k < idx { k } else { k + 1 };
            assert(s[ok] == p);
        }
        if s.contains(p) && p != s[idx] {
            let k = choose|k: int| 0 <= k < s.len() && s[k] == p;
            let rk = if k < idx { k } else { k - 1 };
            assert(r[rk] == p);
        }
    }
}

proof fn lemma_sides_fit(b: Board)
    requires
        b.wf(),
    ensures
        b.width <= b.width * b.height <= i32::MAX,
        b.height <= b.width * b.height,
{
    assert(b.width <= b.width * b.height && b.height <= b.width * b.height) by (nonlinear_arith)
        requires
            b.width >= 1,
            b.height >= 1,
    ;
}

/// A step that is not blocked keeps the board well formed.
proof fn lemma_stepped_wf(b: Board)
    requires
        b.wf(),
        !b.step_blocked(),
    ensures
        b.stepped().wf(),
{
    let nh = b.next_head();
    let a = b.stepped();
    let prefix = if b.eats() {
        b.tail
    } else {
        b.tail.subrange(0, b.tail.len() - 1)
    };
    assert(a.tail == seq![b.head] + prefix);
    lemma_sides_fit(b);
    assert(nh.0 == b.head.0 + b.v.0 && nh.1 == b.head.1 + b.v.1);
    assert(nh != b.head);
    assert forall|p: Vec2| prefix.contains(p) implies b.tail.contains(p) by {
        let k = choose|k: int| 0 <= k < prefix.len() && prefix[k] == p;
        assert(b.tail[k] == p);
    }
    assert forall|p: Vec2| #[trigger] a.tail.contains(p) implies p == b.head || prefix.contains(p) by {
        let k = choose|k: int| 0 <= k < a.tail.len() && a.tail[k] == p;
        if k > 0 {
            assert(prefix[k - 1] == p);
        }
    }
    if b.eats() {
        let idx = b.food.index_of(nh);
        lemma_remove_keeps_distinct(b.food, idx);
    }
    assert(!a.tail.contains(nh));
}

proof fn lemma_with_food_wf(b: Board, p: Vec2)
    requires
        b.wf(),
        b.free(p),
    ensures
        b.with_food(p).wf(),
{
    let f = b.food.push(p);
    assert forall|q: Vec2| #[trigger] f.contains(q) implies b.food.contains(q) || q == p by {
        let k = choose|k: int| 0 <= k < f.len() && f[k] == q;
        if k < b.food.len() {
            assert(b.food[k] == q);
        }
    }
    assert forall|x: int, y: int| 0 <= x < y < f.len() implies f[x] != f[y] by {
        if y == b.food.len() {
            assert(b.food.contains(f[x]));
        }
    }
}

proof fn lemma_cell_in_grid(b: Board, i: int)
    requires
        b.wf(),
        0 <= i < b.width * b.height,
    ensures
        b.in_grid(b.cell(i)),
        0 <= i % b.width < b.width,
        0 <= i / b.width < b.height,
{
    lemma_sides_fit(b);
    vstd::arithmetic::div_mod::lemma_fundamental_div_mod(i, b.width);
    let q = i / b.width;
    let m = i % b.width;
    assert(0 <= m < b.width);
    assert(0 <= q < b.height) by (nonlinear_arith)
        requires
            i == b.width * q + m,
            0 <= m < b.width,
            0 <= i < b.width * b.height,
            b.width > 0,
    ;
}

/// A step moves the head by the pending direction: where the cell ahead
/// is off the grid the step is blocked, and otherwise the stepped head is
/// that cell.
pub proof fn lemma_step_moves_head(b: Board)
    requires
        b.wf(),
    ensures
        b.next_head() == sum(b.head, b.v),
        !b.in_grid(sum(b.head, b.v)) ==> b.step_blocked(),
        !b.step_blocked() ==> b.stepped().head == sum(b.head, b.v),
{
}

/// The last tail cell does not block a step, since the tail leaves it in
/// the same step; any other tail cell does.
pub proof fn lemma_last_tail_cell_exempt(b: Board)
    requires
        b.wf(),
    ensures
        (b.in_grid(b.next_head()) && b.next_head() == b.tail[b.tail.len() - 1] && (forall|i: int|
            0 <= i < b.tail.len() - 1 ==> b.tail[i] != b.next_head())) ==> !b.step_blocked(),
        (exists|i: int| 0 <= i < b.tail.len() - 1 && b.tail[i] == b.next_head()) ==> b.step_blocked(),
{
    let nh = b.next_head();
    let pre = b.tail.subrange(0, b.tail.len() - 1);
    if pre.contains(nh) {
        let k = choose|k: int| 0 <= k < pre.len() && pre[k] == nh;
        assert(b.tail[k] == nh);
    }
    if exists|i: int| 0 <= i < b.tail.len() - 1 && b.tail[i] == nh {
        let i = choose|i: int| 0 <= i < b.tail.len() - 1 && b.tail[i] == nh;
        assert(pre[i] == nh);
    }
}

/// A step onto food grows the tail by exactly one cell and takes that
/// cell out of the food.
pub proof fn lemma_eating_grows_tail(b: Board)
    requires
        b.wf(),
        !b.step_blocked(),
        b.eats(),
    ensures
        b.stepped().tail.len() == b.tail.len() + 1,
        b.stepped().food.len() == b.food.len() - 1,
        !b.stepped().food.contains(b.next_head()),
{
    let idx = b.food.index_of(b.next_head());
    lemma_remove_keeps_distinct(b.food, idx);
}

/// The colour of cell `(x, y)` once the head (where `head` holds), the
/// first `nt` tail cells and the first `nf` food cells are drawn over the
/// background, in that order.
pub open spec fn shade(b: Board, head: bool, nt: int, nf: int, x: i32, y: i32) -> u32 {
    let p = Vec2(x, y);
    if b.food.subrange(0, nf).contains(p) {
        FOOD_COLOR
    } else if b.tail.subrange(0, nt).contains(p) {
        TAIL_COLOR
    } else if head && p == b.head {
        HEAD_COLOR
    } else {
        BG_COLOR
    }
}

/// The colour in which a frame shows cell `p`: food over tail over head
/// over background.
pub open spec fn cell_color(b: Board, p: Vec2) -> u32 {
    shade(b, true, b.tail.len() as int, b.food.len() as int, p.0, p.1)
}

proof fn lemma_prefix_contains(s: Seq<Vec2>, i: int, p: Vec2)
    requires
        0 <= i < s.len(),
    ensures
        s.subrange(0, i + 1).contains(p) == (s.subrange(0, i).contains(p) || s[i] == p),
{
    let long = s.subrange(0, i + 1);
    let short = s.subrange(0, i);
    assert(long =~= short.push(s[i]));
    if long.contains(p) {
        let k = choose|k: int| 0 <= k < i + 1 && #[trigger] long[k] == p;
        if k < i {
            assert(short[k] == p);
        }
    }
    if short.contains(p) {
        let k = choose|k: int| 0 <= k < i && #[trigger] short[k] == p;
        assert(long[k] == p);
    }
    if s[i] == p {
        assert(long[i] == p);
    }
}

/// The interval between two frame-rate reports, in milliseconds.
pub const FPS_REPORT_MS: u64 = 1000;

/// A key of the keyboard, as far as the game tells keys apart.
#[derive(Clone, Copy, Debug, PartialEq, Eq, Structural)]
pub enum Key {
    Right,
    Up,
    Left,
    Down,
    Escape,
    Other,
}

/// The direction that `key` selects, if any.
pub open spec fn key_direction(key: Key) -> Option<Vec2> {
    match key {
        Key::Right => Some(Vec2(1, 0)),
        Key::Up => Some(Vec2(0, 1)),
        Key::Left => Some(Vec2(-1i32, 0)),
        Key::Down => Some(Vec2(0, -1i32)),
        _ => None,
    }
}

/// The step interval, in milliseconds.
pub const TICK_MS: u64 = 400;

/// The food placement interval, in milliseconds.
pub const FOOD_TICK_MS: u64 = 1500;

/// The side of the square grid, in cells.
pub const GRID_SIDE: i32 = 15;

impl State {
    /// Whether the game state is well formed.
    pub open spec fn wf(&self) -> bool {
        self@.wf()
    }

    /// Moves the snake one cell along `v`. Returns `true`, and changes
    /// nothing, when the move would leave the grid or run into the tail
    /// (the last tail cell, which is vacated by this move, excepted).
    /// Otherwise the old head joins the front of the tail, the tail drops
    /// its last cell unless the new head is on food, and eaten food is gone.
    pub fn step(&mut self) -> (r: bool)
        requires
            old(self).wf(),
        ensures
            final(self).wf(),
            r == old(self)@.step_blocked(),
            final(self)@ == if r {
                old(self)@
            } else {
                old(self)@.stepped()
            },
    {
        let ghost b = self@;
        let new_head = self.head.add(self.v);
        let n: usize = self.tail.len();
        if new_head.0 < 0 || new_head.0 >= self.width || new_head.1 < 0 || new_head.1 >= self.height
            || holds(&self.tail, n - 1, new_head) {
            return true;
        }
        match position(&self.food, new_head) {
            Some(fi) => {
                proof {
                    let j = b.food.index_of(new_head);
                    assert(b.food.contains(new_head));
                    assert(b.food[j] == new_head && 0 <= j < b.food.len());
                    assert(j == fi);
                }
                self.tail.push(Vec2(0, 0));
                self.food.remove(fi);
            },
            None => {},
        }
        let ghost t0 = self.tail@;
        let ghost before = *self;
        let m: usize = self.tail.len();
        let mut i: usize = m - 1;
        while i > 0
            invariant
                i < m,
                self.tail@.len() == m,
                m == t0.len(),
                self.head == b.head,
                self.v == b.v,
                self.food == before.food,
                self.tick == b.tick,
                self.food_tick == b.food_tick,
                self.next_update == b.next_update,
                self.next_food == b.next_food,
                self.fps_update == b.fps_update,
                self.width == b.width,
                self.height == b.height,
                forall|t: int| 0 <= t <= i ==> self.tail@[t] == t0[t],
                forall|t: int| i < t < m ==> self.tail@[t] == t0[t - 1],
            decreases i,
        {
            let prev: Vec2 = self.tail[i - 1];
            self.tail.set(i, prev);
            i = i - 1;
        }
        self.tail.set(0, self.head);
        self.head.add_assign(self.v);
        proof {
            assert(self.tail@ =~= seq![b.head] + t0.subrange(0, m - 1));
            if b.eats() {
                assert(t0.subrange(0, m - 1) =~= b.tail);
            }
            assert(self@ =~= b.stepped());
            lemma_stepped_wf(b);
        }
        false
    }

    /// The opening position at `now`: a 15 by 15 grid, the head at (8, 7)
    /// heading right, the tail at (7, 7) and (6, 7), no food, the first step
    /// 400 ms and the first food 1500 ms ahead.
    pub fn new(now: u64) -> (s: State)
        ensures
            s.wf(),
            s.tick == TICK_MS,
            s.food_tick == FOOD_TICK_MS,
            s.next_update == deadline_spec(now as int, TICK_MS as int),
            s.next_food == deadline_spec(now as int, FOOD_TICK_MS as int),
            s.fps_update == now,
            s.width == GRID_SIDE,
            s.height == GRID_SIDE,
            s.v == Vec2(1, 0),
            s.head == Vec2(8, 7),
            s.tail@ == seq![Vec2(7, 7), Vec2(6, 7)],
            s.food@.len() == 0,
    {
        let tick: u64 = TICK_MS;
        let food_tick: u64 = FOOD_TICK_MS;
        let tail: Vec<Vec2> = vec![Vec2(7, 7), Vec2(6, 7)];
        let s = State {
            tick,
            next_update: deadline(now, tick),
            food_tick,
            next_food: deadline(now, food_tick),
            fps_update: now,
            width: GRID_SIDE,
            height: GRID_SIDE,
            v: Vec2(1, 0),
            head: Vec2(8, 7),
            tail,
            food: Vec::new(),
        };
        assert(s.tail@ =~= seq![Vec2(7, 7), Vec2(6, 7)]);
        assert(s.food@ =~= Seq::<Vec2>::empty());
        assert(s@.food.no_duplicates());
        assert(!s.tail@.contains(Vec2(8, 7))) by {
            if s.tail@.contains(Vec2(8, 7)) {
                let k = choose|k: int| 0 <= k < 2 && s.tail@[k] == Vec2(8, 7);
            }
        }
        s
    }

    /// Whether `p` holds neither the head, nor a tail cell, nor food.
    fn is_free(&self, p: Vec2) -> (r: bool)
        ensures
            r == self@.free(p),
    {
        if p == self.head {
            return false;
        }
        let on_tail = holds(&self.tail, self.tail.len(), p);
        assert(self.tail@.subrange(0, self.tail@.len() as int) =~= self.tail@);
        if on_tail {
            return false;
        }
        match position(&self.food, p) {
            Some(_) => false,
            None => true,
        }
    }

    /// The cell with row-major index `idx`.
    fn cell_at(&self, idx: i32) -> (p: Vec2)
        requires
            self.wf(),
            0 <= idx < self.width * self.height,
        ensures
            p == self@.cell(idx as int),
            self@.in_grid(p),
    {
        proof {
            lemma_cell_in_grid(self@, idx as int);
        }
        Vec2(idx % self.width, idx / self.width)
    }

    /// Places one food item on a free cell drawn at random, unless the board
    /// is saturated (the tail, the food and two cells more reach the size
    /// of the grid) or no cell is free: then returns `true` and changes
    /// nothing. Cells are drawn uniformly, and a drawn cell that is taken is
    /// drawn again; after as many draws as there are cells, the choice is
    /// made uniformly among the free cells, which gives the same
    /// distribution.
    pub fn add_food(&mut self) -> (r: bool)
        requires
            old(self).wf(),
        ensures
            final(self).wf(),
            r == (old(self)@.saturated() || !old(self)@.has_free_cell()),
            r ==> final(self)@ == old(self)@,
            !r ==> exists|p: Vec2|
                old(self)@.in_grid(p) && old(self)@.free(p) && final(self)@ == old(self)@.with_food(p),
    {
        let ghost b = self@;
        proof {
            lemma_sides_fit(b);
        }
        let total: i32 = self.width * self.height;
        let tu: usize = total as usize;
        let tl: usize = self.tail.len();
        let fl: usize = self.food.len();
        if tl >= tu || fl >= tu - tl || tu - tl - fl <= 2 {
            return true;
        }
        let mut attempts: i32 = 0;
        while attempts < total
            invariant
                self@ == b,
                b == old(self)@,
                b.wf(),
                !b.saturated(),
                total == b.width * b.height,
            decreases total - attempts,
        {
            let idx: i32 = random_below(total);
            let pos: Vec2 = self.cell_at(idx);
            if self.is_free(pos) {
                self.food.push(pos);
                proof {
                    lemma_with_food_wf(b, pos);
                    assert(self@ =~= b.with_food(pos));
                    assert(b.free(b.cell(idx as int)));
                }
                return false;
            }
            attempts = attempts + 1;
        }
        let mut free: Vec<Vec2> = Vec::new();
        let mut i: i32 = 0;
        while i < total
            invariant
                self@ == b,
                b == old(self)@,
                b.wf(),
                total == b.width * b.height,
                0 <= i <= total,
                free@.len() <= i,
                forall|k: int| 0 <= k < free@.len() ==> b.in_grid(#[trigger] free@[k]) && b.free(free@[k]),
                free@.len() == 0 ==> forall|t: int| 0 <= t < i ==> !b.free(#[trigger] b.cell(t)),
            decreases total - i,
        {
            let pos: Vec2 = self.cell_at(i);
            if self.is_free(pos) {
                free.push(pos);
            }
            i = i + 1;
        }
        if free.len() == 0 {
            return true;
        }
        let k: i32 = random_below(free.len() as i32);
        let pos: Vec2 = free[k as usize];
        self.food.push(pos);
        proof {
            lemma_with_food_wf(b, pos);
            assert(self@ =~= b.with_food(pos));
            let ci = pos.0 + pos.1 * b.width;
            assert(0 <= ci < b.width * b.height) by (nonlinear_arith)
                requires
                    0 <= pos.0 < b.width,
                    0 <= pos.1 < b.height,
                    ci == pos.0 + pos.1 * b.width,
            ;
            vstd::arithmetic::div_mod::lemma_fundamental_div_mod_converse(
                ci,
                b.width,
                pos.1 as int,
                pos.0 as int,
            );
            assert(b.cell(ci) == pos);
        }
        false
    }

    /// One update at `now` (milliseconds): a step if its deadline has
    /// passed, then a food placement if no food is left or its deadline has
    /// passed, each rescheduled `now` plus its interval after it is made.
    /// Returns `true` when either ends the game.
    pub fn update(&mut self, now: u64) -> (r: bool)
        requires
            old(self).wf(),
        ensures
            final(self).wf(),
            old(self)@.updated(now as int, r, final(self)@),
    {
        let ghost b = self@;
        if now > self.next_update {
            if self.step() {
                return true;
            }
            self.next_update = deadline(now, self.tick);
        }
        let ghost a = self@;
        assert(a == b.after_move(now as int));
        if self.food.len() == 0 || now > self.next_food {
            if self.add_food() {
                return true;
            }
            self.next_food = deadline(now, self.food_tick);
            proof {
                let p = choose|p: Vec2| a.in_grid(p) && a.free(p) && #[trigger] a.with_food(p).food
                    == self.food@;
                assert(self@ == (Board { next_food: deadline_spec(now as int, a.food_tick), ..a.with_food(p) }));
            }
        }
        false
    }

    /// Sets the pending direction from an arrow key; any other key leaves
    /// it as it is. A reversal is not refused here: it meets the tail on
    /// the next step.
    pub fn on_keypress(&mut self, key: Key)
        requires
            old(self).wf(),
        ensures
            final(self).wf(),
            final(self)@ == match key_direction(key) {
                Some(d) => Board { v: d, ..old(self)@ },
                None => old(self)@,
            },
    {
        match key {
            Key::Right => {
                self.v = Vec2(1, 0);
            },
            Key::Up => {
                self.v = Vec2(0, 1);
            },
            Key::Left => {
                self.v = Vec2(-1, 0);
            },
            Key::Down => {
                self.v = Vec2(0, -1);
            },
            _ => {},
        }
    }

    /// Draws the board on `canvas`, one pixel per cell: the background,
    /// then the head, the tail and the food. When the report deadline has
    /// passed at `now`, returns the frame rate to report and moves the
    /// deadline a second ahead; otherwise returns `None`.
    pub fn render(&mut self, canvas: &mut Canvas, now: u64) -> (report: Option<usize>)
        requires
            old(self).wf(),
            old(canvas).wf(),
        ensures
            final(self)@ == if now > old(self).fps_update {
                Board { fps_update: deadline_spec(now as int, FPS_REPORT_MS as int), ..old(self)@ }
            } else {
                old(self)@
            },
            report == if now > old(self).fps_update {
                Some(old(canvas).frame_times@.len() as usize)
            } else {
                None
            },
            final(canvas).wf(),
            final(canvas).width == old(canvas).width,
            final(canvas).height == old(canvas).height,
            final(canvas).frame_times == old(canvas).frame_times,
            forall|x: i32, y: i32|
                in_bounds(old(canvas).width as int, old(canvas).height as int, x as int, y as int)
                    ==> final(canvas).pixels@[pixel_index(
                    old(canvas).width as int,
                    old(canvas).height as int,
                    x as int,
                    y as int,
                )] == cell_color(old(self)@, Vec2(x, y)),
    {
        let ghost b = self@;
        let ghost w = canvas.width as int;
        let ghost h = canvas.height as int;
        canvas.clear(Color(BG_COLOR));
        proof {
            assert forall|x: i32, y: i32| in_bounds(w, h, x as int, y as int) implies canvas.pixels@[
                pixel_index(w, h, x as int, y as int)] == shade(b, false, 0, 0, x, y) by {
                crate::canvas::lemma_index_in_grid(w, h, x as int, y as int);
                assert(b.food.subrange(0, 0) =~= Seq::<Vec2>::empty());
                assert(b.tail.subrange(0, 0) =~= Seq::<Vec2>::empty());
            }
        }
        let ghost before = canvas.pixels@;
        canvas.set_pixel(self.head.0, self.head.1, Color(HEAD_COLOR));
        proof {
            assert(b.food.subrange(0, 0) =~= Seq::<Vec2>::empty());
            assert(b.tail.subrange(0, 0) =~= Seq::<Vec2>::empty());
            lemma_paint_cell(
                before,
                canvas.pixels@,
                w,
                h,
                b.head.0,
                b.head.1,
                HEAD_COLOR,
                |x: i32, y: i32| shade(b, false, 0, 0, x, y),
                |x: i32, y: i32| shade(b, true, 0, 0, x, y),
            );
        }
        let mut i: usize = 0;
        while i < self.tail.len()
            invariant
                self@ == b,
                canvas.wf(),
                canvas.width == w,
                canvas.height == h,
                canvas.frame_times == old(canvas).frame_times,
                i <= b.tail.len(),
                forall|x: i32, y: i32|
                    in_bounds(w, h, x as int, y as int) ==> canvas.pixels@[pixel_index(
                        w,
                        h,
                        x as int,
                        y as int,
                    )] == shade(b, true, i as int, 0, x, y),
            decreases b.tail.len() - i,
        {
            let q: Vec2 = self.tail[i];
            let ghost before = canvas.pixels@;
            canvas.set_pixel(q.0, q.1, Color(TAIL_COLOR));
            proof {
                assert(b.food.subrange(0, 0) =~= Seq::<Vec2>::empty());
                assert forall|x: i32, y: i32|
                    #[trigger] shade(b, true, i + 1, 0, x, y) == if x == q.0 && y == q.1 {
                        TAIL_COLOR
                    } else {
                        shade(b, true, i as int, 0, x, y)
                    } by {
                    lemma_prefix_contains(b.tail, i as int, Vec2(x, y));
                }
                lemma_paint_cell(
                    before,
                    canvas.pixels@,
                    w,
                    h,
                    q.0,
                    q.1,
                    TAIL_COLOR,
                    |x: i32, y: i32| shade(b, true, i as int, 0, x, y),
                    |x: i32, y: i32| shade(b, true, i + 1, 0, x, y),
                );
            }
            i = i + 1;
        }
        let mut j: usize = 0;
        while j < self.food.len()
            invariant
                self@ == b,
                canvas.wf(),
                canvas.width == w,
                canvas.height == h,
                canvas.frame_times == old(canvas).frame_times,
                j <= b.food.len(),
                forall|x: i32, y: i32|
                    in_bounds(w, h, x as int, y as int) ==> canvas.pixels@[pixel_index(
                        w,
                        h,
                        x as int,
                        y as int,
                    )] == shade(b, true, b.tail.len() as int, j as int, x, y),
            decreases b.food.len() - j,
        {
            let q: Vec2 = self.food[j];
            let ghost before = canvas.pixels@;
            canvas.set_pixel(q.0, q.1, Color(FOOD_COLOR));
            proof {
                let nt = b.tail.len() as int;
                assert forall|x: i32, y: i32|
                    #[trigger] shade(b, true, nt, j + 1, x, y) == if x == q.0 && y == q.1 {
                        FOOD_COLOR
                    } else {
                        shade(b, true, nt, j as int, x, y)
                    } by {
                    lemma_prefix_contains(b.food, j as int, Vec2(x, y));
                }
                lemma_paint_cell(
                    before,
                    canvas.pixels@,
                    w,
                    h,
                    q.0,
                    q.1,
                    FOOD_COLOR,
                    |x: i32, y: i32| shade(b, true, nt, j as int, x, y),
                    |x: i32, y: i32| shade(b, true, nt, j + 1, x, y),
                );
            }
            j = j + 1;
        }
        if now > self.fps_update {
            let fps: usize = canvas.fps();
            self.fps_update = deadline(now, FPS_REPORT_MS);
            Some(fps)
        } else {
            None
        }
    }
}

/// Handles a pressed key: `true` (stop the game) for Escape, which leaves
/// the state as it is; otherwise the key goes to `on_keypress`.
pub fn handle_keypress(key: Key, state: &mut State) -> (exit: bool)
    requires
        old(state).wf(),
    ensures
        final(state).wf(),
        exit == (key == Key::Escape),
        final(state)@ == match key_direction(key) {
            Some(d) => Board { v: d, ..old(state)@ },
            None => old(state)@,
        },
{
    match key {
        Key::Escape => true,
        _ => {
            state.on_keypress(key);
            false
        },
    }
}

} // verus!
