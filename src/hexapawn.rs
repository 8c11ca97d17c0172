//! Hexapawn: the move rules of a three-by-three pawn game, and a brain that
//! remembers, for each position, which replies have not lost yet.

use rand::Rng;
use std::collections::HashMap;
use vstd::prelude::*;

verus! {

broadcast use vstd::std_specs::hash::group_hash_axioms;

/// What stands on a square.
#[derive(Debug, Clone, Copy, PartialEq, Eq, Structural, Hash)]
pub enum Cell {
    Empty,
    White,
    Black,
}

/// A move from one square to another; squares are numbered 1 to 9 like a
/// calculator's keys, White starting on 1 to 3.
#[derive(Debug, Clone, Copy, PartialEq, Eq, Structural, Hash)]
pub struct Move {
    pub from: u8,
    pub to: u8,
}

/// The board: the squares 1 to 9 in order.
#[derive(Debug, Clone, Copy, PartialEq, Eq, Hash)]
pub struct Board {
    pub cells: [Cell; 9],
}

/// Every step a white pawn can make, as (from, to): straight ahead or
/// diagonally.
pub open spec fn motion() -> Seq<(u8, u8)> {
    seq![(1u8, 4u8), (1u8, 5u8), (2u8, 4u8), (2u8, 5u8), (2u8, 6u8), (3u8, 5u8), (3u8, 6u8), (4u8, 7u8), (4u8, 8u8), (5u8, 7u8), (5u8, 8u8), (5u8, 9u8), (6u8, 8u8), (6u8, 9u8)]
}

/// The candidate moves of White, in table order.
pub open spec fn white_motion() -> Seq<Move> {
    motion().map_values(|m: (u8, u8)| Move { from: m.0, to: m.1 })
}

/// The candidate moves of Black: White's, seen from the other side.
pub open spec fn black_motion() -> Seq<Move> {
    motion().map_values(|m: (u8, u8)| Move { from: (10 - m.0) as u8, to: (10 - m.1) as u8 })
}

/// Both squares of the move are on the board.
pub open spec fn on_board(m: Move) -> bool {
    1 <= m.from <= 9 && 1 <= m.to <= 9
}

impl Move {
    /// A straight move: one row ahead or back, same column.
    pub open spec fn forward(self) -> bool {
        self.from as int - self.to as int == 3 || self.to as int - self.from as int == 3
    }

    /// Whether the move goes straight ahead.
    pub fn is_forward(&self) -> (r: bool)
        ensures
            r == self.forward(),
    {
        if self.from > self.to {
            self.from - self.to == 3
        } else {
            self.to - self.from == 3
        }
    }

    /// White's candidate moves.
    pub fn all_white_moves() -> (r: Vec<Move>)
        ensures
            r@ == white_motion(),
    {
        let mut r: Vec<Move> = Vec::new();
    r.push(Move { from: 1, to: 4 });
    r.push(Move { from: 1, to: 5 });
    r.push(Move { from: 2, to: 4 });
    r.push(Move { from: 2, to: 5 });
    r.push(Move { from: 2, to: 6 });
    r.push(Move { from: 3, to: 5 });
    r.push(Move { from: 3, to: 6 });
    r.push(Move { from: 4, to: 7 });
    r.push(Move { from: 4, to: 8 });
    r.push(Move { from: 5, to: 7 });
    r.push(Move { from: 5, to: 8 });
    r.push(Move { from: 5, to: 9 });
    r.push(Move { from: 6, to: 8 });
    r.push(Move { from: 6, to: 9 });
        assert(r@ =~= white_motion());
        r
    }

    /// Black's candidate moves.
    pub fn all_black_moves() -> (r: Vec<Move>)
        ensures
            r@ == black_motion(),
    {
        let mut r: Vec<Move> = Vec::new();
    r.push(Move { from: 9, to: 6 });
    r.push(Move { from: 9, to: 5 });
    r.push(Move { from: 8, to: 6 });
    r.push(Move { from: 8, to: 5 });
    r.push(Move { from: 8, to: 4 });
    r.push(Move { from: 7, to: 5 });
    r.push(Move { from: 7, to: 4 });
    r.push(Move { from: 6, to: 3 });
    r.push(Move { from: 6, to: 2 });
    r.push(Move { from: 5, to: 3 });
    r.push(Move { from: 5, to: 2 });
    r.push(Move { from: 5, to: 1 });
    r.push(Move { from: 4, to: 2 });
    r.push(Move { from: 4, to: 1 });
        assert(r@ =~= black_motion());
        r
    }
}

/// The value of a square in a board's code.
pub open spec fn cell_code(c: Cell) -> nat {
    match c {
        Cell::Empty => 0,
        Cell::White => 1,
        Cell::Black => 2,
    }
}

/// A board's code: its squares as the digits of a base-3 number, square 1
/// lowest.
pub open spec fn board_code(cells: Seq<Cell>) -> nat
    decreases cells.len(),
{
    if cells.len() == 0 {
        0
    } else {
        cell_code(cells[0]) + 3 * board_code(cells.drop_first())
    }
}

/// Three to the power `n`.
pub open spec fn pow3(n: nat) -> nat
    decreases n,
{
    if n == 0 {
        1
    } else {
        3 * pow3((n - 1) as nat)
    }
}

/// A board's code is below three to the power of its number of squares.
pub proof fn lemma_code_bound(cells: Seq<Cell>)
    ensures
        board_code(cells) < pow3(cells.len()),
    decreases cells.len(),
{
    if cells.len() > 0 {
        lemma_code_bound(cells.drop_first());
    }
}

impl Board {
    /// What stands on square `i` (1 to 9).
    pub open spec fn at(&self, i: int) -> Cell {
        self.cells@[i - 1]
    }

    /// White may make move `m`: a white pawn steps straight onto a square
    /// that holds no black pawn, or diagonally onto a black pawn.
    pub open spec fn white_may(&self, m: Move) -> bool {
        &&& on_board(m)
        &&& self.at(m.from as int) == Cell::White
        &&& if m.forward() {
            self.at(m.to as int) != Cell::Black
        } else {
            self.at(m.to as int) == Cell::Black
        }
    }

    /// Black may make move `m`, by the same rule.
    pub open spec fn black_may(&self, m: Move) -> bool {
        &&& on_board(m)
        &&& self.at(m.from as int) == Cell::Black
        &&& if m.forward() {
            self.at(m.to as int) != Cell::White
        } else {
            self.at(m.to as int) == Cell::White
        }
    }

    /// The moves open to White, in table order.
    pub open spec fn white_options(&self) -> Seq<Move> {
        white_motion().filter(|m: Move| self.white_may(m))
    }

    /// The moves open to Black, in table order.
    pub open spec fn black_options(&self) -> Seq<Move> {
        black_motion().filter(|m: Move| self.black_may(m))
    }

    /// The opening position: White on 1 to 3, Black on 7 to 9.
    pub fn new() -> (r: Board)
        ensures
            r.cells@ == seq![
                Cell::White,
                Cell::White,
                Cell::White,
                Cell::Empty,
                Cell::Empty,
                Cell::Empty,
                Cell::Black,
                Cell::Black,
                Cell::Black,
            ],
    {
        let r = Board {
            cells: [
                Cell::White,
                Cell::White,
                Cell::White,
                Cell::Empty,
                Cell::Empty,
                Cell::Empty,
                Cell::Black,
                Cell::Black,
                Cell::Black,
            ],
        };
        assert(r.cells@ =~= seq![
            Cell::White,
            Cell::White,
            Cell::White,
            Cell::Empty,
            Cell::Empty,
            Cell::Empty,
            Cell::Black,
            Cell::Black,
            Cell::Black,
        ]);
        r
    }

    /// What stands on square `i`.
    pub fn cell(&self, i: u8) -> (r: Cell)
        requires
            1 <= i <= 9,
        ensures
            r == self.at(i as int),
    {
        self.cells[(i - 1) as usize]
    }

    /// Whether White may make move `m`.
    fn white_allows(&self, m: &Move) -> (r: bool)
        ensures
            r == self.white_may(*m),
    {
        if !(1 <= m.from && m.from <= 9 && 1 <= m.to && m.to <= 9) {
            return false;
        }
        if self.cell(m.from) != Cell::White {
            return false;
        }
        if m.is_forward() {
            self.cell(m.to) != Cell::Black
        } else {
            self.cell(m.to) == Cell::Black
        }
    }

    /// Whether Black may make move `m`.
    fn black_allows(&self, m: &Move) -> (r: bool)
        ensures
            r == self.black_may(*m),
    {
        if !(1 <= m.from && m.from <= 9 && 1 <= m.to && m.to <= 9) {
            return false;
        }
        if self.cell(m.from) != Cell::Black {
            return false;
        }
        if m.is_forward() {
            self.cell(m.to) != Cell::White
        } else {
            self.cell(m.to) == Cell::White
        }
    }

    /// The moves open to White.
    pub fn white_moves(&self) -> (r: Vec<Move>)
        ensures
            r@ == self.white_options(),
    {
        let all = Move::all_white_moves();
        let mut r: Vec<Move> = Vec::new();
        let mut i: usize = 0;
        while i < all.len()
            invariant
                all@ == white_motion(),
                i <= all@.len(),
                r@ == all@.subrange(0, i as int).filter(|m: Move| self.white_may(m)),
            decreases all@.len() - i,
        {
            let m = all[i];
            if self.white_allows(&m) {
                r.push(m);
            }
            proof {
                let p = |m: Move| self.white_may(m);
                let u = all@.subrange(0, i + 1);
                assert(u.drop_last() =~= all@.subrange(0, i as int));
                reveal(Seq::filter);
                assert(u.filter(p) == if p(m) { u.drop_last().filter(p).push(m) } else { u.drop_last().filter(p) });
            }
            i += 1;
        }
        assert(all@.subrange(0, i as int) =~= all@);
        r
    }

    /// The moves open to Black.
    pub fn black_moves(&self) -> (r: Vec<Move>)
        ensures
            r@ == self.black_options(),
    {
        let all = Move::all_black_moves();
        let mut r: Vec<Move> = Vec::new();
        let mut i: usize = 0;
        while i < all.len()
            invariant
                all@ == black_motion(),
                i <= all@.len(),
                r@ == all@.subrange(0, i as int).filter(|m: Move| self.black_may(m)),
            decreases all@.len() - i,
        {
            let m = all[i];
            if self.black_allows(&m) {
                r.push(m);
            }
            proof {
                let p = |m: Move| self.black_may(m);
                let u = all@.subrange(0, i + 1);
                assert(u.drop_last() =~= all@.subrange(0, i as int));
                reveal(Seq::filter);
                assert(u.filter(p) == if p(m) { u.drop_last().filter(p).push(m) } else { u.drop_last().filter(p) });
            }
            i += 1;
        }
        assert(all@.subrange(0, i as int) =~= all@);
        r
    }

    /// Makes move `mov`: the piece on its first square goes to its second.
    pub fn do_move(&mut self, mov: &Move)
        requires
            on_board(*mov),
        ensures
            final(self).cells@ == old(self).cells@.update(mov.to - 1, old(self).at(mov.from as int)).update(
                mov.from - 1,
                Cell::Empty,
            ),
    {
        let c = self.cell(mov.from);
        self.cells[(mov.to - 1) as usize] = c;
        self.cells[(mov.from - 1) as usize] = Cell::Empty;
    }

    /// Whether a black pawn has reached White's home row (squares 1 to 3).
    pub fn black_promoted(&self) -> (r: bool)
        ensures
            r == exists|i: int| 1 <= i <= 3 && self.at(i) == Cell::Black,
    {
        let mut i: u8 = 1;
        while i <= 3
            invariant
                1 <= i <= 4,
                forall|j: int| 1 <= j < i ==> self.at(j) != Cell::Black,
            decreases 4 - i,
        {
            if self.cell(i) == Cell::Black {
                return true;
            }
            i += 1;
        }
        false
    }

    /// Whether a white pawn has reached Black's home row (squares 7 to 9).
    pub fn white_promoted(&self) -> (r: bool)
        ensures
            r == exists|i: int| 7 <= i <= 9 && self.at(i) == Cell::White,
    {
        let mut i: u8 = 7;
        while i <= 9
            invariant
                7 <= i <= 10,
                forall|j: int| 7 <= j < i ==> self.at(j) != Cell::White,
            decreases 10 - i,
        {
            if self.cell(i) == Cell::White {
                return true;
            }
            i += 1;
        }
        false
    }

    /// White has lost: no move is open to White, or a black pawn has reached
    /// White's home row.
    pub fn white_lost(&self) -> (r: bool)
        ensures
            r == (self.white_options().len() == 0 || exists|i: int| 1 <= i <= 3 && self.at(i) == Cell::Black),
    {
        self.white_moves().len() == 0 || self.black_promoted()
    }

    /// Black has lost: no move is open to Black, or a white pawn has reached
    /// Black's home row.
    pub fn black_lost(&self) -> (r: bool)
        ensures
            r == (self.black_options().len() == 0 || exists|i: int| 7 <= i <= 9 && self.at(i) == Cell::White),
    {
        self.black_moves().len() == 0 || self.white_promoted()
    }

    /// This board's code, which tells boards apart.
    pub fn key(&self) -> (r: u32)
        ensures
            r as nat == board_code(self.cells@),
    {
        let mut k: u32 = 0;
        let mut i: usize = 9;
        while i > 0
            invariant
                i <= 9,
                k as nat == board_code(self.cells@.subrange(i as int, 9)),
            decreases i,
        {
            proof {
                lemma_code_bound(self.cells@.subrange(i as int, 9));
                reveal_with_fuel(pow3, 10);
                assert(pow3(9) == 19683);
            }
            i -= 1;
            let d: u32 = match self.cells[i] {
                Cell::Empty => 0,
                Cell::White => 1,
                Cell::Black => 2,
            };
            assert(self.cells@.subrange(i as int, 9).drop_first() =~= self.cells@.subrange(i + 1, 9));
            k = d + 3 * k;
        }
        assert(self.cells@.subrange(0, 9) =~= self.cells@);
        k
    }
}

/// Relies on rand::Rng::gen_range (rand 0.7) on the thread-local generator: a
/// value in `[0, n)`; it panics only when the range is empty.
#[verifier::external_body]
fn random_below(n: usize) -> (r: usize)
    requires
        n > 0,
    ensures
        r < n,
{
    rand::thread_rng().gen_range(0, n)
}

/// A copy of a list of moves.
fn copy_moves(v: &Vec<Move>) -> (r: Vec<Move>)
    ensures
        r@ == v@,
{
    let mut r: Vec<Move> = Vec::new();
    let mut i: usize = 0;
    while i < v.len()
        invariant
            i <= v@.len(),
            r@ == v@.subrange(0, i as int),
        decreases v@.len() - i,
    {
        r.push(v[i]);
        i += 1;
        assert(r@ =~= v@.subrange(0, i as int));
    }
    assert(r@ =~= v@);
    r
}

/// Black's memory: for each position met so far (by its code), the replies
/// that have not lost a game yet.
pub struct Brain {
    brain: HashMap<u32, Vec<Move>>,
}

impl Brain {
    /// The replies remembered for each board code.
    pub closed spec fn memory(&self) -> Map<u32, Seq<Move>> {
        self.brain@.map_values(|v: Vec<Move>| v@)
    }

    /// The replies for `board`: the remembered ones, or all of Black's
    /// moves for a board met for the first time.
    pub open spec fn replies(&self, board: Board) -> Seq<Move> {
        let k = board_code(board.cells@) as u32;
        if self.memory().contains_key(k) {
            self.memory()[k]
        } else {
            board.black_options()
        }
    }

    /// A brain that has met no position yet.
    pub fn new() -> (r: Self)
        ensures
            r.memory() == Map::<u32, Seq<Move>>::empty(),
    {
        let r = Brain { brain: HashMap::new() };
        assert(r.memory() =~= Map::<u32, Seq<Move>>::empty());
        r
    }

    /// The replies for `board`; a board met for the first time is
    /// remembered with all of Black's moves.
    pub fn get(&mut self, board: &Board) -> (r: Vec<Move>)
        ensures
            r@ == old(self).replies(*board),
            final(self).memory() == old(self).memory().insert(
                board_code(board.cells@) as u32,
                old(self).replies(*board),
            ),
    {
        let k = board.key();
        match self.brain.get(&k) {
            Some(v) => {
                let r = copy_moves(v);
                proof {
                    assert(self.memory().insert(k, r@) =~= self.memory());
                }
                r
            },
            None => {
                let moves = board.black_moves();
                let r = copy_moves(&moves);
                self.brain.insert(k, moves);
                proof {
                    assert(self.memory() =~= old(self).memory().insert(k, r@));
                }
                r
            },
        }
    }

    /// Forgets reply `mov` for `board`, after it lost a game; tells whether
    /// any reply is left for that board.
    pub fn forget(&mut self, board: &Board, mov: &Move) -> (r: bool)
        ensures
            final(self).memory() == old(self).memory().insert(
                board_code(board.cells@) as u32,
                old(self).replies(*board).filter(|m: Move| m != *mov),
            ),
            r == (old(self).replies(*board).filter(|m: Move| m != *mov).len() > 0),
    {
        let k = board.key();
        let moves = self.get(board);
        let mut kept: Vec<Move> = Vec::new();
        let mut i: usize = 0;
        while i < moves.len()
            invariant
                i <= moves@.len(),
                kept@ == moves@.subrange(0, i as int).filter(|m: Move| m != *mov),
            decreases moves@.len() - i,
        {
            let m = moves[i];
            if m != *mov {
                kept.push(m);
            }
            proof {
                let p = |m: Move| m != *mov;
                let u = moves@.subrange(0, i + 1);
                assert(u.drop_last() =~= moves@.subrange(0, i as int));
                reveal(Seq::filter);
                assert(u.filter(p) == if p(m) { u.drop_last().filter(p).push(m) } else { u.drop_last().filter(p) });
            }
            i += 1;
        }
        assert(moves@.subrange(0, i as int) =~= moves@);
        let left = kept.len() > 0;
        let ghost kv = kept@;
        let ghost mid = self.memory();
        self.brain.insert(k, kept);
        proof {
            assert(self.memory() =~= mid.insert(k, kv));
            assert(mid.insert(k, kv) =~= old(self).memory().insert(k, kv));
        }
        left
    }

    /// Black's reply on `board`, drawn at random from the remembered ones;
    /// none where no reply is left.
    pub fn choose_move(&mut self, board: &Board) -> (r: Option<Move>)
        ensures
            final(self).memory() == old(self).memory().insert(
                board_code(board.cells@) as u32,
                old(self).replies(*board),
            ),
            r is None <==> old(self).replies(*board).len() == 0,
            r matches Some(m) ==> old(self).replies(*board).contains(m),
    {
        let moves = self.get(board);
        if moves.len() == 0 {
            return None;
        }
        let i = random_below(moves.len());
        Some(moves[i])
    }
}

/// Learning from a lost game, on memory `mem` and Black's moves `hist` of
/// that game (position and reply): the last reply is forgotten; where that
/// leaves its position without replies, the reply before it is forgotten
/// too, and so on. Gives the memory after that, and how many moves of the
/// history are left.
pub open spec fn after_learning(mem: Map<u32, Seq<Move>>, hist: Seq<(Board, Move)>) -> (Map<u32, Seq<Move>>, nat)
    decreases hist.len(),
{
    if hist.len() == 0 {
        (mem, 0)
    } else {
        let b = hist.last().0;
        let m = hist.last().1;
        let k = board_code(b.cells@) as u32;
        let before = if mem.contains_key(k) {
            mem[k]
        } else {
            b.black_options()
        };
        let kept = before.filter(|x: Move| x != m);
        let mem2 = mem.insert(k, kept);
        if kept.len() > 0 {
            (mem2, (hist.len() - 1) as nat)
        } else {
            after_learning(mem2, hist.drop_last())
        }
    }
}

impl Brain {
    /// Learns from a lost game whose Black moves are `history`: forgets
    /// replies from the last one back, until a position keeps a reply; the
    /// moves taken back leave the history.
    pub fn learn(&mut self, history: &mut Vec<(Board, Move)>)
        ensures
            final(self).memory() == after_learning(old(self).memory(), old(history)@).0,
            final(history)@ == old(history)@.subrange(
                0,
                after_learning(old(self).memory(), old(history)@).1 as int,
            ),
    {
        let ghost goal = after_learning(old(self).memory(), old(history)@);
        let ghost hist0 = old(history)@;
        while history.len() > 0
            invariant
                after_learning(self.memory(), history@) == goal,
                goal == after_learning(old(self).memory(), old(history)@),
                hist0 == old(history)@,
                history@.len() <= hist0.len(),
                history@ == hist0.subrange(0, history@.len() as int),
            decreases history@.len(),
        {
            let ghost mem = self.memory();
            let ghost h = history@;
            let (b, m) = history.pop().unwrap();
            assert(history@ =~= h.drop_last());
            let left = self.forget(&b, &m);
            if left {
                proof {
                    assert(history@ =~= hist0.subrange(0, history@.len() as int));
                    assert(goal == (self.memory(), (h.len() - 1) as nat));
                }
                return;
            }
            assert(history@ =~= hist0.subrange(0, history@.len() as int));
        }
    }
}

} // verus!
