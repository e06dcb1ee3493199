use vstd::prelude::*;

use crate::geometry::Position;
use crate::rng::RandomSource;

verus! {

/// The four headings a snake can take.
#[derive(Clone, Copy, Debug, PartialEq, Eq, Structural)]
pub enum Direction {
    Up,
    Down,
    Left,
    Right,
}

/// Two headings that undo each other; a snake may never reverse.
pub open spec fn opposite(a: Direction, b: Direction) -> bool {
    ||| (a is Up && b is Down)
    ||| (a is Down && b is Up)
    ||| (a is Left && b is Right)
    ||| (a is Right && b is Left)
}

/// Where the head moves next: one cell along the heading, with the origin
/// at the top left, never leaving the board's coordinate space.
pub open spec fn next_head(p: Position, d: Direction) -> Position {
    match d {
        Direction::Up => Position { x: p.x, y: (if p.y > 0 { p.y - 1 } else { 0 }) as u16 },
        Direction::Down => Position { x: p.x, y: (p.y + 1) as u16 },
        Direction::Left => Position { x: (if p.x > 0 { p.x - 1 } else { 0 }) as u16, y: p.y },
        Direction::Right => Position { x: (p.x + 1) as u16, y: p.y },
    }
}

/// A cell on the border of the board: running into it ends the game.
pub open spec fn hits_wall(p: Position, width: u16, height: u16) -> bool {
    p.x == 0 || p.y == 0 || p.x == width || p.y == height
}

/// Some segment of the snake lies on `p`.
pub open spec fn snake_contains(s: Seq<Position>, p: Position) -> bool {
    exists|i: int| 0 <= i < s.len() && s[i] == p
}

/// The snake-game state: the snake's segments, head first.
pub struct SnakeGame {
    pub snake: Vec<Position>,
    pub direction: Direction,
    pub food: Position,
    pub width: u16,
    pub height: u16,
    pub score: u16,
    pub game_over: bool,
}

impl SnakeGame {
    /// A live game: at least one segment, all strictly inside the walls.
    pub open spec fn wf(self) -> bool {
        &&& self.snake@.len() >= 1
        &&& 2 <= self.width
        &&& 2 <= self.height
        &&& forall|i: int|
            0 <= i < self.snake@.len() ==> {
                &&& 0 < (#[trigger] self.snake@[i]).x < self.width
                &&& 0 < self.snake@[i].y < self.height
            }
    }

    /// A fresh game: one segment in the middle, heading right, food at a
    /// random cell off the top and left walls.
    pub fn new(width: u16, height: u16, rng: &mut RandomSource) -> (r: SnakeGame)
        requires
            2 <= width,
            2 <= height,
        ensures
            r.wf(),
            r.snake@.len() == 1,
            r.snake@[0] == (Position { x: width / 2, y: height / 2 }),
            r.direction is Right,
            1 <= r.food.x < width,
            1 <= r.food.y < height,
            r.width == width,
            r.height == height,
            r.score == 0,
            !r.game_over,
    {
        let mut snake: Vec<Position> = Vec::new();
        snake.push(Position { x: width / 2, y: height / 2 });
        let fx: u32 = rng.pick(1, width as u32);
        let fy: u32 = rng.pick(1, height as u32);
        let food = Position { x: fx as u16, y: fy as u16 };
        SnakeGame { snake, direction: Direction::Right, food, width, height, score: 0, game_over: false }
    }

    /// Exact membership test against the snake's body.
    fn body_contains(&self, p: Position) -> (r: bool)
        ensures
            r == snake_contains(self.snake@, p),
    {
        let mut i: usize = 0;
        while i < self.snake.len()
            invariant
                i <= self.snake@.len(),
                forall|k: int| 0 <= k < i ==> self.snake@[k] != p,
            decreases self.snake@.len() - i,
        {
            if self.snake[i] == p {
                return true;
            }
            i = i + 1;
        }
        false
    }

    /// One tick: the head advances along the heading; the game ends on a
    /// wall or on the snake's own body; eating the food grows the snake
    /// by one, scores, and respawns the food; otherwise the tail follows.
    pub fn update(&mut self, rng: &mut RandomSource)
        requires
            old(self).wf() || old(self).game_over,
            old(self).score < u16::MAX,
        ensures
            final(self).wf() || final(self).game_over,
            old(self).game_over ==> *final(self) == *old(self),
            final(self).width == old(self).width,
            final(self).height == old(self).height,
            final(self).direction == old(self).direction,
            !old(self).game_over ==> {
                let head = next_head(old(self).snake@[0], old(self).direction);
                if hits_wall(head, old(self).width, old(self).height) || snake_contains(
                    old(self).snake@,
                    head,
                ) {
                    &&& final(self).game_over
                    &&& final(self).snake == old(self).snake
                    &&& final(self).score == old(self).score
                    &&& final(self).food == old(self).food
                } else if head == old(self).food {
                    &&& !final(self).game_over
                    &&& final(self).snake@ == seq![head] + old(self).snake@
                    &&& final(self).score == old(self).score + 1
                    &&& 1 <= final(self).food.x < old(self).width
                    &&& 1 <= final(self).food.y < old(self).height
                } else {
                    &&& !final(self).game_over
                    &&& final(self).snake@ == (seq![head] + old(self).snake@).drop_last()
                    &&& final(self).score == old(self).score
                    &&& final(self).food == old(self).food
                }
            },
    {
        if self.game_over {
            return ;
        }
        let head: Position = self.snake[0];
        let new_head: Position = match self.direction {
            Direction::Up => Position {
                x: head.x,
                y: if head.y > 0 {
                    head.y - 1
                } else {
                    0
                },
            },
            Direction::Down => Position { x: head.x, y: head.y + 1 },
            Direction::Left => Position {
                x: if head.x > 0 {
                    head.x - 1
                } else {
                    0
                },
                y: head.y,
            },
            Direction::Right => Position { x: head.x + 1, y: head.y },
        };
        if new_head.x == 0 || new_head.y == 0 || new_head.x == self.width || new_head.y
            == self.height {
            self.game_over = true;
            return ;
        }
        if self.body_contains(new_head) {
            self.game_over = true;
            return ;
        }
        self.snake.insert(0, new_head);
        if new_head == self.food {
            self.score = self.score + 1;
            let fx: u32 = rng.pick(1, self.width as u32);
            let fy: u32 = rng.pick(1, self.height as u32);
            self.food = Position { x: fx as u16, y: fy as u16 };
            proof {
                assert(self.snake@ =~= seq![new_head] + old(self).snake@);
            }
        } else {
            self.snake.pop();
            proof {
                assert(self.snake@ =~= (seq![new_head] + old(self).snake@).drop_last());
            }
        }
    }

    /// Steer the snake; a turn straight back onto itself is ignored.
    pub fn change_direction(&mut self, new_direction: Direction)
        ensures
            final(self).direction == (if opposite(old(self).direction, new_direction) {
                old(self).direction
            } else {
                new_direction
            }),
            final(self).snake == old(self).snake,
            final(self).food == old(self).food,
            final(self).width == old(self).width,
            final(self).height == old(self).height,
            final(self).score == old(self).score,
            final(self).game_over == old(self).game_over,
    {
        if (self.direction == Direction::Up && new_direction == Direction::Down) || (self.direction
            == Direction::Down && new_direction == Direction::Up) || (self.direction
            == Direction::Left && new_direction == Direction::Right) || (self.direction
            == Direction::Right && new_direction == Direction::Left) {
            return ;
        }
        self.direction = new_direction;
    }
}

} // verus!
