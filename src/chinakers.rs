use vstd::prelude::*;

verus! {

/// The content of one square of the board.
#[derive(Clone, Copy, PartialEq, Eq, Structural, Debug)]
pub enum Cell {
    Void,
    Empty,
    Piece,
}

/// The four directions in which a piece can jump.
#[derive(Clone, Copy, PartialEq, Eq, Structural, Debug)]
pub enum MoveDirection {
    Up,
    Left,
    Down,
    Right,
}

/// The order in which `MoveDirection::iter` lists the directions.
pub open spec fn direction_order() -> Seq<MoveDirection> {
    seq![MoveDirection::Up, MoveDirection::Down, MoveDirection::Left, MoveDirection::Right]
}

impl MoveDirection {
    /// Every direction, in the order up, down, left, right.
    pub fn iter() -> (r: Vec<MoveDirection>)
        ensures
            r@ == direction_order(),
    {
        let r = vec![MoveDirection::Up, MoveDirection::Down, MoveDirection::Left, MoveDirection::Right];
        assert(r@ =~= direction_order());
        r
    }

    /// The step, as (dx, dy), that one square in this direction makes.
    pub open spec fn delta(self) -> (int, int) {
        match self {
            MoveDirection::Up => (0, -1),
            MoveDirection::Left => (-1, 0),
            MoveDirection::Down => (0, 1),
            MoveDirection::Right => (1, 0),
        }
    }
}

/// A square of the board, by column `x` and row `y`.
#[derive(Clone, Copy, PartialEq, Eq, Structural, Debug)]
pub struct Position {
    pub x: i8,
    pub y: i8,
}

/// A jump of the piece at `position` in `direction`.
#[derive(Clone, Copy, PartialEq, Eq, Structural, Debug)]
pub struct Move {
    pub position: Position,
    pub direction: MoveDirection,
}

/// The squares of the cross-shaped board: a 7x7 grid without its four 2x2 corners.
pub open spec fn valid_xy(x: int, y: int) -> bool {
    0 <= x <= 6 && 0 <= y <= 6 && !((x < 2 || x > 4) && (y < 2 || y > 4))
}

/// Where square (x, y) is kept in the row-major array of 49 cells.
pub open spec fn index_of(x: int, y: int) -> int {
    x + y * 7
}

/// A coordinate pair one square from which stays within `i8`.
pub open spec fn step_in_range(p: Position) -> bool {
    -127 <= p.x <= 126 && -127 <= p.y <= 126
}

/// A coordinate pair that the jump arithmetic on `i8` can reach without overflow.
pub open spec fn jump_in_range(p: Position) -> bool {
    -126 <= p.x <= 125 && -126 <= p.y <= 125
}

impl Move {
    /// The square jumped over, as (x, y).
    pub open spec fn victim_xy(self) -> (int, int) {
        (self.position.x + self.direction.delta().0, self.position.y + self.direction.delta().1)
    }

    /// The square landed on, as (x, y).
    pub open spec fn landing_xy(self) -> (int, int) {
        (
            self.position.x + 2 * self.direction.delta().0,
            self.position.y + 2 * self.direction.delta().1,
        )
    }

    pub fn victim_position(&self) -> (r: Position)
        requires
            step_in_range(self.position),
        ensures
            r.x == self.victim_xy().0,
            r.y == self.victim_xy().1,
    {
        let p = self.position;
        match self.direction {
            MoveDirection::Up => Position { x: p.x, y: p.y - 1 },
            MoveDirection::Left => Position { x: p.x - 1, y: p.y },
            MoveDirection::Down => Position { x: p.x, y: p.y + 1 },
            MoveDirection::Right => Position { x: p.x + 1, y: p.y },
        }
    }

    pub fn landing_position(&self) -> (r: Position)
        requires
            jump_in_range(self.position),
        ensures
            r.x == self.landing_xy().0,
            r.y == self.landing_xy().1,
    {
        let p = self.position;
        match self.direction {
            MoveDirection::Up => Position { x: p.x, y: p.y - 2 },
            MoveDirection::Left => Position { x: p.x - 2, y: p.y },
            MoveDirection::Down => Position { x: p.x, y: p.y + 2 },
            MoveDirection::Right => Position { x: p.x + 2, y: p.y },
        }
    }
}

/// The cell at (x, y) of board `b`, or `None` off the board.
pub open spec fn cell_at(b: Seq<Cell>, x: int, y: int) -> Option<Cell> {
    if valid_xy(x, y) {
        Some(b[index_of(x, y)])
    } else {
        None
    }
}

/// A jump is legal when a piece jumps over a piece onto an empty square.
pub open spec fn is_legal(b: Seq<Cell>, m: Move) -> bool {
    &&& cell_at(b, m.position.x as int, m.position.y as int) == Some(Cell::Piece)
    &&& cell_at(b, m.victim_xy().0, m.victim_xy().1) == Some(Cell::Piece)
    &&& cell_at(b, m.landing_xy().0, m.landing_xy().1) == Some(Cell::Empty)
}

/// The board after jump `m`: the start and the jumped square empty, the landing square filled.
pub open spec fn after_move(b: Seq<Cell>, m: Move) -> Seq<Cell> {
    b.update(index_of(m.position.x as int, m.position.y as int), Cell::Empty).update(
        index_of(m.victim_xy().0, m.victim_xy().1),
        Cell::Empty,
    ).update(index_of(m.landing_xy().0, m.landing_xy().1), Cell::Piece)
}

/// `b2` follows from `b1` by one legal jump.
pub open spec fn is_step(b1: Seq<Cell>, b2: Seq<Cell>) -> bool {
    exists|m: Move| #[trigger] is_legal(b1, m) && after_move(b1, m) == b2
}

/// The square visited at step `k` of the column-major scan of the grid.
pub open spec fn scan_position(k: int) -> Position {
    Position { x: (k / 7) as i8, y: (k % 7) as i8 }
}

/// The pieces among the first `n` squares of the scan, in scan order.
pub open spec fn pieces_upto(b: Seq<Cell>, n: int) -> Seq<Position>
    decreases n,
{
    if n <= 0 {
        Seq::empty()
    } else {
        let p = scan_position(n - 1);
        pieces_upto(b, n - 1) + if cell_at(b, p.x as int, p.y as int) == Some(Cell::Piece) {
            seq![p]
        } else {
            Seq::empty()
        }
    }
}

/// The positions of all pieces, column by column.
pub open spec fn pieces(b: Seq<Cell>) -> Seq<Position> {
    pieces_upto(b, 49)
}

pub open spec fn piece_count(b: Seq<Cell>) -> int {
    pieces(b).len() as int
}

/// One piece or none is left.
pub open spec fn solved(b: Seq<Cell>) -> bool {
    piece_count(b) <= 1
}

pub open spec fn abs(v: int) -> int {
    if v < 0 {
        -v
    } else {
        v
    }
}

/// The Manhattan distance of a square to the centre (3, 3).
pub open spec fn center_distance(p: Position) -> int {
    abs(3 - p.x) + abs(3 - p.y)
}

pub open spec fn distance_sum(ps: Seq<Position>) -> int
    decreases ps.len(),
{
    if ps.len() == 0 {
        0
    } else {
        distance_sum(ps.drop_last()) + center_distance(ps.last())
    }
}

/// The sum of the distances of all pieces to the centre.
pub open spec fn manhattan(b: Seq<Cell>) -> int {
    distance_sum(pieces(b))
}

/// The legal jumps of the piece at `p`, over the first `j` directions of `direction_order`.
pub open spec fn moves_at_upto(b: Seq<Cell>, p: Position, j: int) -> Seq<Move>
    decreases j,
{
    if j <= 0 {
        Seq::empty()
    } else {
        let m = Move { position: p, direction: direction_order()[j - 1] };
        moves_at_upto(b, p, j - 1) + if is_legal(b, m) {
            seq![m]
        } else {
            Seq::empty()
        }
    }
}

/// The legal jumps of the pieces at `ps`, piece by piece.
pub open spec fn moves_of(b: Seq<Cell>, ps: Seq<Position>) -> Seq<Move>
    decreases ps.len(),
{
    if ps.len() == 0 {
        Seq::empty()
    } else {
        moves_of(b, ps.drop_last()) + moves_at_upto(b, ps.last(), 4)
    }
}

/// Every legal jump on the board.
pub open spec fn legal_moves(b: Seq<Cell>) -> Seq<Move> {
    moves_of(b, pieces(b))
}

/// Pieces left beyond the last one, plus their spread, minus the jumps
/// available; never below zero.
pub open spec fn heuristic(b: Seq<Cell>) -> int {
    let raw = (piece_count(b) - 1) + manhattan(b) - legal_moves(b).len();
    if raw < 0 {
        0
    } else {
        raw
    }
}

pub proof fn lemma_pieces_upto(b: Seq<Cell>, n: int)
    requires
        0 <= n <= 49,
    ensures
        pieces_upto(b, n).len() <= n,
        forall|i: int|
            0 <= i < pieces_upto(b, n).len() ==> {
                let p = #[trigger] pieces_upto(b, n)[i];
                valid_xy(p.x as int, p.y as int) && cell_at(b, p.x as int, p.y as int) == Some(
                    Cell::Piece,
                )
            },
    decreases n,
{
    if n > 0 {
        lemma_pieces_upto(b, n - 1);
    }
}

proof fn lemma_count_update(b: Seq<Cell>, x: int, y: int, c: Cell, n: int)
    requires
        b.len() == 49,
        valid_xy(x, y),
        0 <= n <= 49,
    ensures
        pieces_upto(b.update(index_of(x, y), c), n).len() == pieces_upto(b, n).len() - (if 7 * x
            + y < n && b[index_of(x, y)] == Cell::Piece {
            1int
        } else {
            0int
        }) + (if 7 * x + y < n && c == Cell::Piece {
            1int
        } else {
            0int
        }),
    decreases n,
{
    if n > 0 {
        lemma_count_update(b, x, y, c, n - 1);
        let k = n - 1;
        let p = scan_position(k);
        assert(p.x == k / 7 && p.y == k % 7);
        if valid_xy(p.x as int, p.y as int) {
            assert(index_of(p.x as int, p.y as int) == index_of(x, y) <==> k == 7 * x + y);
        }
    }
}

/// A legal jump removes exactly one piece.
pub proof fn lemma_move_removes_one(b: Seq<Cell>, m: Move)
    requires
        b.len() == 49,
        is_legal(b, m),
    ensures
        piece_count(after_move(b, m)) == piece_count(b) - 1,
{
    let (px, py) = (m.position.x as int, m.position.y as int);
    let (vx, vy) = m.victim_xy();
    let (lx, ly) = m.landing_xy();
    let b1 = b.update(index_of(px, py), Cell::Empty);
    let b2 = b1.update(index_of(vx, vy), Cell::Empty);
    lemma_count_update(b, px, py, Cell::Empty, 49);
    lemma_count_update(b1, vx, vy, Cell::Empty, 49);
    lemma_count_update(b2, lx, ly, Cell::Piece, 49);
    assert(b1[index_of(vx, vy)] == Cell::Piece);
    assert(b2[index_of(lx, ly)] == Cell::Empty);
}

/// `b2` follows from `b1` by one jump, so it holds one piece less.
pub proof fn lemma_step_removes_one(b1: Seq<Cell>, b2: Seq<Cell>)
    requires
        b1.len() == 49,
        is_step(b1, b2),
    ensures
        piece_count(b2) == piece_count(b1) - 1,
{
    let m = choose|m: Move| #[trigger] is_legal(b1, m) && after_move(b1, m) == b2;
    lemma_move_removes_one(b1, m);
}

proof fn lemma_moves_at_len(b: Seq<Cell>, p: Position, j: int)
    requires
        0 <= j <= 4,
    ensures
        moves_at_upto(b, p, j).len() <= j,
        forall|i: int|
            0 <= i < moves_at_upto(b, p, j).len() ==> is_legal(
                b,
                #[trigger] moves_at_upto(b, p, j)[i],
            ),
    decreases j,
{
    if j > 0 {
        lemma_moves_at_len(b, p, j - 1);
    }
}

pub proof fn lemma_moves_of(b: Seq<Cell>, ps: Seq<Position>)
    ensures
        moves_of(b, ps).len() <= 4 * ps.len(),
        forall|i: int|
            0 <= i < moves_of(b, ps).len() ==> is_legal(b, #[trigger] moves_of(b, ps)[i]),
    decreases ps.len(),
{
    if ps.len() > 0 {
        lemma_moves_of(b, ps.drop_last());
        lemma_moves_at_len(b, ps.last(), 4);
        let a = moves_of(b, ps.drop_last());
        let c = moves_at_upto(b, ps.last(), 4);
        assert forall|i: int| 0 <= i < moves_of(b, ps).len() implies is_legal(
            b,
            #[trigger] moves_of(b, ps)[i],
        ) by {
            if i >= a.len() {
                assert(moves_of(b, ps)[i] == c[i - a.len()]);
            } else {
                assert(moves_of(b, ps)[i] == a[i]);
            }
        }
    }
}

/// The starting board, cell by cell in row-major order.
pub open spec fn start_board() -> Seq<Cell> {
    Seq::new(
        49,
        |i: int|
            if !valid_xy(i % 7, i / 7) {
                Cell::Void
            } else if i == 24 {
                Cell::Empty
            } else {
                Cell::Piece
            },
    )
}

/// A board: 49 cells in row-major order, of which the 33 squares of the cross are in play.
#[derive(Clone, Copy, PartialEq, Eq, Debug)]
pub struct Field {
    data: [Cell; 49],
}

impl View for Field {
    type V = Seq<Cell>;

    closed spec fn view(&self) -> Seq<Cell> {
        self.data@
    }
}

impl Field {
    /// A board always has 49 cells.
    pub proof fn lemma_len(&self)
        ensures
            self@.len() == 49,
    {
    }

    /// The starting board: every square of the cross holds a piece but the centre.
    pub fn new() -> (r: Field)
        ensures
            r@ == start_board(),
    {
        let mut data = [Cell::Piece; 49];
        let mut k: usize = 0;
        while k < 49
            invariant
                k <= 49,
                data@.len() == 49,
                forall|i: int| 0 <= i < k ==> data@[i] == #[trigger] start_board()[i],
            decreases 49 - k,
        {
            let x = (k % 7) as i8;
            let y = (k / 7) as i8;
            let x_outer = x < 2 || x > 4;
            let y_outer = y < 2 || y > 4;
            if x_outer && y_outer {
                data[k] = Cell::Void;
            } else if k == 24 {
                data[k] = Cell::Empty;
            } else {
                data[k] = Cell::Piece;
            }
            k += 1;
        }
        assert(data@ =~= start_board());
        Field { data }
    }

    pub fn get_cell(&self, position: Position) -> (r: Option<Cell>)
        ensures
            r == cell_at(self@, position.x as int, position.y as int),
    {
        if !Self::is_valid_position(position) {
            return None;
        }
        Some(self.data[(position.x + position.y * 7) as usize])
    }

    pub fn set_cell(&mut self, position: Position, cell: Cell) -> (r: Result<(), ()>)
        ensures
            r is Ok <==> valid_xy(position.x as int, position.y as int),
            r is Ok ==> final(self)@ == old(self)@.update(
                index_of(position.x as int, position.y as int),
                cell,
            ),
            r is Err ==> final(self)@ == old(self)@,
    {
        if !Self::is_valid_position(position) {
            return Err(());
        }
        self.data[(position.x + position.y * 7) as usize] = cell;
        Ok(())
    }

    pub fn is_valid_position(position: Position) -> (r: bool)
        ensures
            r == valid_xy(position.x as int, position.y as int),
    {
        let (x, y) = (position.x, position.y);
        if x < 0 || y < 0 || x > 6 || y > 6 {
            return false;
        }
        let (x_outer, y_outer) = (x < 2 || x > 4, y < 2 || y > 4);
        !x_outer || !y_outer
    }

    pub fn is_valid_move(&self, m: Move) -> (r: bool)
        ensures
            r == is_legal(self@, m),
    {
        let position = m.position;
        match self.get_cell(position) {
            Some(Cell::Piece) => {},
            _ => return false,
        }
        match self.get_cell(m.victim_position()) {
            Some(Cell::Piece) => {},
            _ => return false,
        }
        match self.get_cell(m.landing_position()) {
            Some(Cell::Empty) => true,
            _ => false,
        }
    }

    /// Plays `m` if it is legal; otherwise leaves the board as it was.
    pub fn make_move(&mut self, m: Move) -> (r: Result<(), ()>)
        ensures
            r is Ok <==> is_legal(old(self)@, m),
            r is Ok ==> final(self)@ == after_move(old(self)@, m),
            r is Err ==> final(self)@ == old(self)@,
    {
        if !self.is_valid_move(m) {
            return Err(());
        }
        let v = m.victim_position();
        let l = m.landing_position();
        let _ = self.set_cell(m.position, Cell::Empty);
        let _ = self.set_cell(v, Cell::Empty);
        let _ = self.set_cell(l, Cell::Piece);
        Ok(())
    }

    /// The positions of the pieces, column by column, each column from top to bottom.
    pub fn get_pieces(&self) -> (r: Vec<Position>)
        ensures
            r@ == pieces(self@),
    {
        let mut r: Vec<Position> = Vec::new();
        let mut k: i8 = 0;
        while k < 49
            invariant
                0 <= k <= 49,
                r@ == pieces_upto(self@, k as int),
            decreases 49 - k,
        {
            let p = Position { x: k / 7, y: k % 7 };
            assert(p == scan_position(k as int));
            match self.get_cell(p) {
                Some(Cell::Piece) => {
                    r.push(p);
                },
                _ => {},
            }
            assert(r@ =~= pieces_upto(self@, k + 1));
            k += 1;
        }
        r
    }

    pub fn count_pieces(&self) -> (r: u8)
        ensures
            r == piece_count(self@),
    {
        proof {
            lemma_pieces_upto(self@, 49);
        }
        self.get_pieces().len() as u8
    }

    /// The puzzle is over once at most one piece is left.
    pub fn is_solved(&self) -> (r: bool)
        ensures
            r == solved(self@),
    {
        self.count_pieces() <= 1
    }

    /// The sum over all pieces of their Manhattan distance to the centre.
    pub fn manhattan_distance_sum(&self) -> (r: i32)
        ensures
            r == manhattan(self@),
            0 <= r <= 6 * piece_count(self@),
    {
        let ps = self.get_pieces();
        proof {
            lemma_pieces_upto(self@, 49);
        }
        let mut sum: i32 = 0;
        let mut i: usize = 0;
        while i < ps.len()
            invariant
                i <= ps@.len(),
                ps@ == pieces(self@),
                ps@.len() <= 49,
                forall|j: int|
                    0 <= j < ps@.len() ==> valid_xy(#[trigger] ps@[j].x as int, ps@[j].y as int),
                sum == distance_sum(ps@.take(i as int)),
                0 <= sum <= 6 * i,
            decreases ps.len() - i,
        {
            let p = ps[i];
            assert(valid_xy(ps@[i as int].x as int, ps@[i as int].y as int));
            let dx: i32 = if p.x < 3 { (3 - p.x) as i32 } else { (p.x - 3) as i32 };
            let dy: i32 = if p.y < 3 { (3 - p.y) as i32 } else { (p.y - 3) as i32 };
            assert(ps@.take(i + 1).drop_last() =~= ps@.take(i as int));
            sum = sum + dx + dy;
            i += 1;
        }
        assert(ps@.take(ps@.len() as int) =~= ps@);
        sum
    }

    /// Every legal jump: for each piece in the order of `get_pieces`, the
    /// directions in the order of `MoveDirection::iter`.
    pub fn available_moves(&self) -> (r: Vec<Move>)
        ensures
            r@ == legal_moves(self@),
    {
        let ps = self.get_pieces();
        let dirs = MoveDirection::iter();
        let mut moves: Vec<Move> = Vec::new();
        let mut i: usize = 0;
        while i < ps.len()
            invariant
                i <= ps@.len(),
                ps@ == pieces(self@),
                dirs@ == direction_order(),
                moves@ == moves_of(self@, ps@.take(i as int)),
            decreases ps.len() - i,
        {
            let position = ps[i];
            let ghost before = moves@;
            let mut j: usize = 0;
            while j < 4
                invariant
                    j <= 4,
                    i < ps@.len(),
                    position == ps@[i as int],
                    dirs@ == direction_order(),
                    moves@ == before + moves_at_upto(self@, position, j as int),
                decreases 4 - j,
            {
                let m = Move { position, direction: dirs[j] };
                if self.is_valid_move(m) {
                    moves.push(m);
                }
                assert(moves@ =~= before + moves_at_upto(self@, position, j + 1));
                j += 1;
            }
            assert(ps@.take(i + 1).drop_last() =~= ps@.take(i as int));
            i += 1;
        }
        assert(ps@.take(ps@.len() as int) =~= ps@);
        moves
    }

    /// The heuristic estimate of the cost to a solved board.
    pub fn eval_heuristic(&self) -> (r: i32)
        ensures
            r == heuristic(self@),
            r >= 0,
    {
        proof {
            lemma_pieces_upto(self@, 49);
            lemma_moves_of(self@, pieces(self@));
        }
        let base = self.count_pieces() as i32 - 1;
        let available_moves = self.available_moves().len() as i32;
        let manhattan_distance_sum = self.manhattan_distance_sum();
        let raw = base + manhattan_distance_sum - available_moves;
        if raw < 0 {
            0
        } else {
            raw
        }
    }

    /// The heuristic estimate for the board after `m`, or for this board where `m` is illegal.
    pub fn eval_heuristic_for_move(&self, m: Move) -> (r: i32)
        ensures
            r == heuristic(if is_legal(self@, m) { after_move(self@, m) } else { self@ }),
    {
        let mut f = *self;
        let _ = f.make_move(m);
        f.eval_heuristic()
    }
}

} // verus!
