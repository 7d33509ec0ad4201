use vstd::prelude::*;

verus! {

/// A cell of the board; `x` grows to the right and `y` grows downwards.
#[derive(Clone, Copy, PartialEq, Eq, Structural, Debug, Hash)]
pub struct Point {
    pub x: i16,
    pub y: i16,
}

/// One of the four moves a snake can make.
#[derive(Clone, Copy, PartialEq, Eq, Structural, Debug)]
pub enum Move {
    Up,
    Down,
    Left,
    Right,
}

/// The identifier of a game.
pub struct GameId {
    pub id: String,
}

/// A snake: its identifier, its name, its health and its body, head first.
pub struct Snake {
    pub id: String,
    pub name: String,
    pub health: u8,
    pub body: Vec<Point>,
}

/// The board: its size, the food on it and every snake on it.
pub struct Board {
    pub height: u16,
    pub width: u16,
    pub food: Vec<Point>,
    pub snakes: Vec<Snake>,
}

/// One turn of a game as the server describes it.
pub struct Game {
    pub game: GameId,
    pub turn: u32,
    pub board: Board,
    pub you: Snake,
}

/// A cell reached at a given look-ahead level.
#[derive(Clone, Copy, PartialEq, Eq, Structural, Debug, Hash)]
pub struct Path {
    pub point: Point,
    pub level: u8,
}

/// The head drawings a snake may choose.
#[derive(Clone, Copy, PartialEq, Eq, Structural, Debug)]
pub enum HeadType {
    Beluga,
    Bendr,
    Dead,
    Evil,
    Fang,
    Pixel,
    Regular,
    Safe,
    SandWorm,
    Shades,
    Silly,
    Smile,
    Tongue,
}

/// The tail drawings a snake may choose.
#[derive(Clone, Copy, PartialEq, Eq, Structural, Debug)]
pub enum TailType {
    BlockBum,
    Bolt,
    Curled,
    FatRattle,
    Freckled,
    Hook,
    Pixel,
    Regular,
    RoundBum,
    Sharp,
    Skinny,
    SmallRattle,
}

/// The look of the snake, sent when a game starts.
pub struct Config {
    pub color: String,
    pub head: HeadType,
    pub tail: TailType,
}

/// The short answers the server sends to the other requests.
#[derive(Clone, Copy, PartialEq, Eq, Structural, Debug)]
pub enum Say {
    Bye,
    Hello,
    Pong,
}

/// The mathematical value of a snake.
pub struct SnakeView {
    pub id: Seq<char>,
    pub name: Seq<char>,
    pub health: u8,
    pub body: Seq<Point>,
}

/// The mathematical value of a board.
pub struct BoardView {
    pub height: u16,
    pub width: u16,
    pub food: Seq<Point>,
    pub snakes: Seq<SnakeView>,
}

/// The mathematical value of a game.
pub struct GameView {
    pub game_id: Seq<char>,
    pub turn: u32,
    pub board: BoardView,
    pub you: SnakeView,
}

impl View for Snake {
    type V = SnakeView;

    open spec fn view(&self) -> SnakeView {
        SnakeView { id: self.id@, name: self.name@, health: self.health, body: self.body@ }
    }
}

impl View for Board {
    type V = BoardView;

    open spec fn view(&self) -> BoardView {
        BoardView {
            height: self.height,
            width: self.width,
            food: self.food@,
            snakes: self.snakes@.map_values(|s: Snake| s@),
        }
    }
}

impl View for Game {
    type V = GameView;

    open spec fn view(&self) -> GameView {
        GameView { game_id: self.game.id@, turn: self.turn, board: self.board@, you: self.you@ }
    }
}

/// The cell reached from `p` by one step in direction `dir`.
pub open spec fn step(p: Point, dir: Move) -> (int, int) {
    match dir {
        Move::Up => (p.x as int, p.y - 1),
        Move::Down => (p.x as int, p.y + 1),
        Move::Left => (p.x - 1, p.y as int),
        Move::Right => (p.x + 1, p.y as int),
    }
}

/// `q` is one step away from `p`.
pub open spec fn adjacent(p: Point, q: Point) -> bool {
    ||| (p.x == q.x && (p.y - q.y == 1 || q.y - p.y == 1))
    ||| (p.y == q.y && (p.x - q.x == 1 || q.x - p.x == 1))
}

/// Absolute value.
pub open spec fn abs(v: int) -> int {
    if v < 0 { -v } else { v }
}

/// The number of steps between two cells when moving along the grid.
pub open spec fn manhattan(p: Point, q: Point) -> int {
    abs(p.x - q.x) + abs(p.y - q.y)
}

/// The points of `s` in order: a copy of the body of a snake.
pub fn copy_points(s: &Vec<Point>) -> (r: Vec<Point>)
    ensures
        r@ == s@,
{
    let mut r: Vec<Point> = Vec::new();
    let mut i: usize = 0;
    while i < s.len()
        invariant
            i <= s.len(),
            r@ == s@.take(i as int),
        decreases s.len() - i,
    {
        r.push(s[i]);
        i += 1;
        assert(r@ =~= s@.take(i as int));
    }
    assert(s@.take(s.len() as int) =~= s@);
    r
}

impl GameId {
    /// A copy of this identifier.
    pub fn duplicate(&self) -> (r: GameId)
        ensures
            r.id@ == self.id@,
    {
        GameId { id: self.id.clone() }
    }
}

impl Snake {
    /// A copy of this snake.
    pub fn duplicate(&self) -> (r: Snake)
        ensures
            r@ == self@,
    {
        Snake {
            id: self.id.clone(),
            name: self.name.clone(),
            health: self.health,
            body: copy_points(&self.body),
        }
    }
}

/// A copy of a list of snakes.
pub fn copy_snakes(s: &Vec<Snake>) -> (r: Vec<Snake>)
    ensures
        r@.map_values(|x: Snake| x@) == s@.map_values(|x: Snake| x@),
{
    let mut r: Vec<Snake> = Vec::new();
    let mut i: usize = 0;
    while i < s.len()
        invariant
            i <= s.len(),
            r@.len() == i,
            forall|k: int| 0 <= k < i ==> r@[k]@ == s@[k]@,
        decreases s.len() - i,
    {
        r.push(s[i].duplicate());
        i += 1;
    }
    assert(r@.map_values(|x: Snake| x@) =~= s@.map_values(|x: Snake| x@));
    r
}

impl Board {
    /// A copy of this board.
    pub fn duplicate(&self) -> (r: Board)
        ensures
            r@ == self@,
    {
        Board {
            height: self.height,
            width: self.width,
            food: copy_points(&self.food),
            snakes: copy_snakes(&self.snakes),
        }
    }
}

impl Game {
    /// A copy of this game.
    pub fn duplicate(&self) -> (r: Game)
        ensures
            r@ == self@,
    {
        Game {
            game: self.game.duplicate(),
            turn: self.turn,
            board: self.board.duplicate(),
            you: self.you.duplicate(),
        }
    }
}

} // verus!
