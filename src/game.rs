//! Game state: both sides' pieces, whose turn it is, and who has won.
use crate::position::{
    alignment, anchor, cell_indices, destinations, is_cell, is_throw, lemma_destinations_are_cells, BOARD_HEIGHT, BOARD_WIDTH,
    lemma_position_index_bounds, Position, POSITIONS, S_ON_GOAL, S_ON_START,
};
use crate::sticks::Sticks;
use vstd::prelude::*;

verus! {

broadcast use lemma_position_index_bounds;

pub const NUM_PIECES: usize = 4;

/// How many of the first `i` cells of `s` are `c`.
pub open spec fn count_before(s: Seq<int>, c: int, i: int) -> nat
    decreases i,
{
    if i <= 0 {
        0
    } else {
        count_before(s, c, i - 1) + (if s[i - 1] == c {
            1nat
        } else {
            0nat
        })
    }
}

/// How many pieces of `s` stand on cell `c`.
pub open spec fn count_at(s: Seq<int>, c: int) -> nat {
    count_before(s, c, s.len() as int)
}

/// Every piece of a side on the start cell.
pub open spec fn all_on_start() -> Seq<int> {
    Seq::new(NUM_PIECES as nat, |i: int| S_ON_START as int)
}

pub open spec fn all_cells(s: Seq<int>) -> bool {
    forall|i: int| 0 <= i < s.len() ==> is_cell(#[trigger] s[i])
}

pub open spec fn all_at_goal(s: Seq<int>) -> bool {
    forall|i: int| 0 <= i < s.len() ==> #[trigger] s[i] == S_ON_GOAL
}

/// 1 when the first side has brought every piece home, -1 when the second
/// has, 0 while neither has.
pub open spec fn outcome(first: Seq<int>, second: Seq<int>) -> int {
    if all_at_goal(first) {
        1
    } else if all_at_goal(second) {
        -1
    } else {
        0
    }
}

/// The mover's pieces after `num` of those on `from` go to `to`: the pieces
/// on `from` that come first in piece order move.
pub open spec fn move_stack(s: Seq<int>, from: int, to: int, num: int) -> Seq<int> {
    Seq::new(
        s.len(),
        |i: int|
            if s[i] == from && count_before(s, from, i) < num {
                to
            } else {
                s[i]
            },
    )
}

/// The opponent's pieces after the mover lands on `to`: unless `to` is the
/// goal, every piece there goes back to the start.
pub open spec fn capture(s: Seq<int>, to: int) -> Seq<int> {
    Seq::new(
        s.len(),
        |i: int|
            if to != S_ON_GOAL && s[i] == to {
                S_ON_START as int
            } else {
                s[i]
            },
    )
}

/// How many pieces may leave cell `c` in one move: one from the start, the
/// whole stack elsewhere.
pub open spec fn movable_count(s: Seq<int>, c: int) -> nat {
    if c == S_ON_START {
        1
    } else {
        count_at(s, c)
    }
}

/// The moves of up to `movable` pieces from `c` to each of the first `ways`
/// cells of `dests`, as (from, to, count).
pub open spec fn stack_moves(c: int, dests: Seq<int>, movable: nat, ways: int) -> Seq<(int, int, int)>
    decreases ways,
{
    if ways <= 0 {
        seq![]
    } else {
        stack_moves(c, dests, movable, ways - 1) + Seq::new(
            movable,
            |m: int| (c, dests[ways - 1], m + 1),
        )
    }
}

/// The moves out of cell `c` for the mover's pieces `s` and a throw of `d`.
pub open spec fn cell_moves(s: Seq<int>, d: int, c: int) -> Seq<(int, int, int)> {
    if c == S_ON_GOAL || count_at(s, c) == 0 {
        seq![]
    } else {
        stack_moves(c, destinations(c, d), movable_count(s, c), destinations(c, d).len() as int)
    }
}

/// The moves out of the cells below `n`, cell by cell.
pub open spec fn moves_below(s: Seq<int>, d: int, n: int) -> Seq<(int, int, int)>
    decreases n,
{
    if n <= 0 {
        seq![]
    } else {
        moves_below(s, d, n - 1) + cell_moves(s, d, n - 1)
    }
}

/// Every legal move for the mover's pieces `s` and a throw of `d`, in order.
pub open spec fn legal_moves(s: Seq<int>, d: int) -> Seq<(int, int, int)> {
    moves_below(s, d, POSITIONS as int)
}

pub open spec fn action_triples(v: Seq<Action>) -> Seq<(int, int, int)> {
    v.map_values(|a: Action| (a.from_cell(), a.to_cell(), a.count()))
}

/// Length of the board drawing: its rows joined by line breaks.
pub const TEXT_LEN: usize = BOARD_HEIGHT * (BOARD_WIDTH + 1) - 1;

/// The drawing with no cell in it: spaces, and a line break after each row.
pub open spec fn blank_text(t: int) -> char {
    if t % (BOARD_WIDTH + 1) as int == BOARD_WIDTH as int {
        '\n'
    } else {
        ' '
    }
}

pub open spec fn digit(n: int) -> char {
    if n == 1 {
        '1'
    } else if n == 2 {
        '2'
    } else if n == 3 {
        '3'
    } else {
        '4'
    }
}

/// Character `k` (0 or 1) of the mark of a cell where the first side has
/// `net` more pieces than the second: `..` when even, `O` and the
/// difference when the first side leads, `X` and the difference otherwise.
pub open spec fn mark(net: int, k: int) -> char {
    if net == 0 {
        '.'
    } else if k == 0 {
        if net > 0 {
            'O'
        } else {
            'X'
        }
    } else if net > 0 {
        digit(net)
    } else {
        digit(-net)
    }
}

/// Where the mark of cell `c` starts in the drawing.
pub open spec fn text_offset(c: int) -> int {
    anchor(c).0 * (BOARD_WIDTH + 1) as int + anchor(c).1
}

/// Character `t` of the drawing after the marks of the cells below `n`
/// are written in index order, a later mark over an earlier one.
pub open spec fn drawn(first: Seq<int>, second: Seq<int>, n: int, t: int) -> char
    decreases n,
{
    if n <= 0 {
        blank_text(t)
    } else {
        let c = n - 1;
        let net = count_at(first, c) - count_at(second, c);
        if t == text_offset(c) {
            mark(net, 0)
        } else if t == text_offset(c) + 1 {
            mark(net, 1)
        } else {
            drawn(first, second, c, t)
        }
    }
}

/// Relies on std's `FromIterator<char>` for `String`: the string holds the
/// characters in order.
#[verifier::external_body]
fn string_of_chars(v: &Vec<char>) -> (r: String)
    ensures
        r@ == v@,
{
    v.iter().collect()
}

fn digit_char(n: i64) -> (r: char)
    ensures
        r == digit(n as int),
{
    if n == 1 {
        '1'
    } else if n == 2 {
        '2'
    } else if n == 3 {
        '3'
    } else {
        '4'
    }
}

/// The pieces of the side to move on board `b` (first side's cells, second
/// side's cells, whether the first side moves).
pub open spec fn board_mover(b: (Seq<int>, Seq<int>, bool)) -> Seq<int> {
    if b.2 {
        b.0
    } else {
        b.1
    }
}

pub open spec fn board_waiting(b: (Seq<int>, Seq<int>, bool)) -> Seq<int> {
    if b.2 {
        b.1
    } else {
        b.0
    }
}

/// Board `b` after the side to move plays (from, to, count).
pub open spec fn board_step(b: (Seq<int>, Seq<int>, bool), m: (int, int, int)) -> (
    Seq<int>,
    Seq<int>,
    bool,
) {
    let moved = move_stack(board_mover(b), m.0, m.1, m.2);
    let hit = capture(board_waiting(b), m.1);
    if b.2 {
        (moved, hit, false)
    } else {
        (hit, moved, true)
    }
}

/// The game on board `b` is over.
pub open spec fn finished(b: (Seq<int>, Seq<int>, bool)) -> bool {
    outcome(b.0, b.1) != 0
}

/// Board `next` follows board `b` by one legal move for some throw.
pub open spec fn is_move_of(b: (Seq<int>, Seq<int>, bool), next: (Seq<int>, Seq<int>, bool)) -> bool {
    exists|d: int, j: int|
        #![trigger legal_moves(board_mover(b), d)[j]]
        is_throw(d) && 0 <= j < legal_moves(board_mover(b), d).len() && next == board_step(
            b,
            legal_moves(board_mover(b), d)[j],
        )
}

/// A move of `num` stacked pieces from one cell to another.
#[derive(Debug, Clone, Copy)]
pub struct Action {
    at: Position,
    to: Position,
    num: usize,
}

impl Action {
    pub closed spec fn from_cell(self) -> int {
        self.at@
    }

    pub closed spec fn to_cell(self) -> int {
        self.to@
    }

    pub closed spec fn count(self) -> int {
        self.num as int
    }

    pub fn new(at: Position, to: Position, num: usize) -> (r: Self)
        requires
            num > 0,
        ensures
            r.from_cell() == at@,
            r.to_cell() == to@,
            r.count() == num,
    {
        Action { at, to, num }
    }

    pub fn at(&self) -> (r: Position)
        ensures
            r@ == self.from_cell(),
    {
        self.at
    }

    pub fn to(&self) -> (r: Position)
        ensures
            r@ == self.to_cell(),
    {
        self.to
    }

    pub fn num(&self) -> (r: usize)
        ensures
            r == self.count(),
    {
        self.num
    }
}

/// A position of the game.
#[derive(Clone, Copy, Debug, PartialEq, Eq, Hash)]
pub struct State {
    first_pos: [Position; NUM_PIECES],
    second_pos: [Position; NUM_PIECES],
    first_turn: bool,
    winner: isize,
}

impl State {
    /// The cells of the first side's pieces, in piece order.
    pub closed spec fn first(self) -> Seq<int> {
        cell_indices(self.first_pos@)
    }

    /// The cells of the second side's pieces, in piece order.
    pub closed spec fn second(self) -> Seq<int> {
        cell_indices(self.second_pos@)
    }

    pub closed spec fn first_to_move(self) -> bool {
        self.first_turn
    }

    /// 1 when the first side has won, -1 when the second has, else 0.
    pub closed spec fn result(self) -> int {
        self.winner as int
    }

    pub open spec fn mover(self) -> Seq<int> {
        if self.first_to_move() {
            self.first()
        } else {
            self.second()
        }
    }

    pub open spec fn waiting(self) -> Seq<int> {
        if self.first_to_move() {
            self.second()
        } else {
            self.first()
        }
    }

    pub open spec fn wf(self) -> bool {
        &&& self.first().len() == NUM_PIECES
        &&& self.second().len() == NUM_PIECES
        &&& all_cells(self.first())
        &&& all_cells(self.second())
        &&& self.result() == outcome(self.first(), self.second())
    }

    /// The state after `act`: the mover's pieces move, the opponent's on
    /// the landing cell are captured, and the turn passes.
    pub open spec fn after(self, act: Action) -> (Seq<int>, Seq<int>, bool) {
        self.after_move((act.from_cell(), act.to_cell(), act.count()))
    }

    /// The state after the move (from, to, count), as `after` gives it.
    pub open spec fn after_move(self, m: (int, int, int)) -> (Seq<int>, Seq<int>, bool) {
        board_step(self.board(), m)
    }

    /// Both sides' cells and whether the first side moves.
    pub open spec fn board(self) -> (Seq<int>, Seq<int>, bool) {
        (self.first(), self.second(), self.first_to_move())
    }

    /// Every piece on the start cell, the first side to move.
    pub fn new() -> (r: Self)
        ensures
            r.wf(),
            r.first() == all_on_start(),
            r.second() == all_on_start(),
            r.first_to_move(),
            r.result() == 0,
    {
        let r = State {
            first_pos: [Position::start(); NUM_PIECES],
            second_pos: [Position::start(); NUM_PIECES],
            first_turn: true,
            winner: 0,
        };
        assert(r.first() =~= all_on_start());
        assert(r.second() =~= all_on_start());
        assert(!all_at_goal(r.first()) && !all_at_goal(r.second())) by {
            assert(r.first()[0] == S_ON_START);
            assert(r.second()[0] == S_ON_START);
        }
        r
    }

    /// Moves `act.count()` of the mover's pieces from the origin of `act` to
    /// its destination, sends the opponent's pieces there back to the start
    /// (unless it is the goal), records a winner and passes the turn.
    pub fn act(&mut self, act: Action)
        requires
            old(self).wf(),
            is_cell(act.to_cell()),
            1 <= act.count() <= count_at(old(self).mover(), act.from_cell()),
        ensures
            final(self).wf(),
            (final(self).first(), final(self).second(), final(self).first_to_move()) == old(
                self,
            ).after(act),
    {
        let ghost m0 = self.mover();
        let ghost w0 = self.waiting();
        let ghost from = act.from_cell();
        let ghost to = act.to_cell();
        let pos = self.get_piece(act.at);
        let mut k: usize = 0;
        while k < act.num
            invariant
                k <= act.count() <= pos@.len(),
                from == act.from_cell(),
                to == act.to_cell(),
                m0.len() == NUM_PIECES,
                forall|q: int|
                    0 <= q < pos@.len() ==> {
                        &&& (#[trigger] pos@[q]) < NUM_PIECES
                        &&& m0[pos@[q] as int] == from
                        &&& count_before(m0, from, pos@[q] as int) == q
                    },
                self.first_to_move() == old(self).first_to_move(),
                self.waiting() == w0,
                self.result() == old(self).result(),
                self.mover() == move_stack(m0, from, to, k as int),
            decreases act.count() - k,
        {
            let p = pos[k];
            proof {
                assert forall|j: int|
                    0 <= j < NUM_PIECES && j != p && m0[j] == from implies count_before(
                        m0,
                        from,
                        j,
                    ) != k by {
                    if j < p {
                        lemma_count_before_increases(m0, from, j, p as int);
                    } else {
                        lemma_count_before_increases(m0, from, p as int, j);
                    }
                }
            }
            let ghost prev = self.mover();
            self.set_current_piece(p, act.to);
            assert(self.mover() == prev.update(p as int, act.to@));
            assert forall|j: int| 0 <= j < NUM_PIECES implies #[trigger] self.mover()[j] == move_stack(
                m0,
                from,
                to,
                k + 1,
            )[j] by {
                assert(prev[j] == move_stack(m0, from, to, k as int)[j]);
                if j != p {
                    assert(self.mover()[j] == prev[j]);
                } else {
                    assert(pos@[k as int] == p);
                    assert(m0[p as int] == from);
                    assert(count_before(m0, from, p as int) == k);
                    assert(self.mover()[j] == to);
                }
            }
            assert(self.mover() =~= move_stack(m0, from, to, k + 1));
            k = k + 1;
        }
        let ghost m1 = self.mover();
        if usize::from(act.to) != S_ON_GOAL {
            let mut i: usize = 0;
            while i < NUM_PIECES
                invariant
                    i <= NUM_PIECES,
                    to != S_ON_GOAL,
                    to == act.to@,
                    w0.len() == NUM_PIECES,
                    self.first().len() == NUM_PIECES,
                    self.second().len() == NUM_PIECES,
                    self.first_to_move() == old(self).first_to_move(),
                    self.mover() == m1,
                    self.waiting() == Seq::new(
                        NUM_PIECES as nat,
                        |j: int|
                            if j < i && w0[j] == to {
                                S_ON_START as int
                            } else {
                                w0[j]
                            },
                    ),
                decreases NUM_PIECES - i,
            {
                let ghost before = self.waiting();
                if self.first_turn {
                    assert(self.second()[i as int] == self.second_pos[i as int]@);
                    if usize::from(self.second_pos[i]) == usize::from(act.to) {
                        self.second_pos[i] = Position::start();
                        assert(self.second() =~= before.update(i as int, S_ON_START as int));
                    }
                } else {
                    assert(self.first()[i as int] == self.first_pos[i as int]@);
                    if usize::from(self.first_pos[i]) == usize::from(act.to) {
                        self.first_pos[i] = Position::start();
                        assert(self.first() =~= before.update(i as int, S_ON_START as int));
                    }
                }
                assert(self.mover() =~= m1);
                assert(self.waiting() =~= Seq::new(
                    NUM_PIECES as nat,
                    |j: int|
                        if j < i + 1 && w0[j] == to {
                            S_ON_START as int
                        } else {
                            w0[j]
                        },
                ));
                i = i + 1;
            }
        }
        assert(self.waiting() =~= capture(w0, to));
        self.check_end();
        self.first_turn = !self.first_turn;
    }

    /// Every legal move of the mover for a throw of `sticks`: for each
    /// occupied cell but the goal in index order, each destination, and each
    /// number of pieces from one up to what may leave that cell.
    pub fn actions(&self, sticks: Sticks) -> (r: Vec<Action>)
        requires
            self.wf(),
            is_throw(sticks@),
        ensures
            action_triples(r@) == legal_moves(self.mover(), sticks@),
            forall|k: int|
                0 <= k < r@.len() ==> {
                    &&& is_cell((#[trigger] r@[k]).to_cell())
                    &&& 1 <= r@[k].count() <= count_at(self.mover(), r@[k].from_cell())
                },
    {
        let my_pieces = self.my_pieces();
        let d = usize::from(sticks);
        let ghost s = self.mover();
        let mut actions: Vec<Action> = Vec::new();
        let mut i: usize = 0;
        while i < POSITIONS
            invariant
                i <= POSITIONS,
                self.wf(),
                s == self.mover(),
                d == sticks@,
                is_throw(d as int),
                my_pieces@.len() == POSITIONS,
                forall|c: int| 0 <= c < POSITIONS ==> #[trigger] my_pieces@[c] == count_at(s, c),
                action_triples(actions@) == moves_below(s, d as int, i as int),
                forall|k: int|
                    0 <= k < actions@.len() ==> {
                        &&& is_cell((#[trigger] actions@[k]).to_cell())
                        &&& 1 <= actions@[k].count() <= count_at(s, actions@[k].from_cell())
                    },
            decreases POSITIONS - i,
        {
            let my_piece = my_pieces[i];
            let ghost base = action_triples(actions@);
            if i != S_ON_GOAL && my_piece != 0 {
                let here = Position::from(i);
                let to = here.advance(d);
                let ghost dests = destinations(i as int, d as int);
                proof {
                    lemma_count_before_bounded(s, i as int, NUM_PIECES as int);
                }
                let movable: usize = if i == S_ON_START {
                    1
                } else {
                    my_piece
                };
                assert(movable == movable_count(s, i as int));
                let mut way: usize = 0;
                while way < to.len()
                    invariant
                        i < POSITIONS,
                        way <= to@.len(),
                        cell_indices(to@) == dests,
                        dests == destinations(i as int, d as int),
                        here@ == i,
                        movable == movable_count(s, i as int),
                        1 <= movable <= count_at(s, i as int),
                        movable <= NUM_PIECES,
                        forall|k: int| 0 <= k < to@.len() ==> (#[trigger] to@[k]).is_valid(),
                        action_triples(actions@) == base + stack_moves(
                            i as int,
                            dests,
                            movable as nat,
                            way as int,
                        ),
                        forall|k: int|
                            0 <= k < actions@.len() ==> {
                                &&& is_cell((#[trigger] actions@[k]).to_cell())
                                &&& 1 <= actions@[k].count() <= count_at(
                                    s,
                                    actions@[k].from_cell(),
                                )
                            },
                    decreases to@.len() - way,
                {
                    let ghost upto = action_triples(actions@);
                    assert(dests[way as int] == to@[way as int]@);
                    let mut m: usize = 1;
                    while m <= movable
                        invariant
                            1 <= m <= movable + 1,
                            movable <= NUM_PIECES,
                            way < to@.len(),
                            here@ == i,
                            dests[way as int] == to@[way as int]@,
                            movable <= count_at(s, i as int),
                            to@[way as int].is_valid(),
                            action_triples(actions@) == upto + Seq::new(
                                (m - 1) as nat,
                                |q: int| (i as int, dests[way as int], q + 1),
                            ),
                            forall|k: int|
                                0 <= k < actions@.len() ==> {
                                    &&& is_cell((#[trigger] actions@[k]).to_cell())
                                    &&& 1 <= actions@[k].count() <= count_at(
                                        s,
                                        actions@[k].from_cell(),
                                    )
                                },
                        decreases movable + 1 - m,
                    {
                        let ghost prev = actions@;
                        let a = Action::new(here, to[way], m);
                        actions.push(a);
                        assert(action_triples(actions@) =~= action_triples(prev).push(
                            (i as int, dests[way as int], m as int),
                        ));
                        assert(Seq::new(m as nat, |q: int| (i as int, dests[way as int], q + 1))
                            =~= Seq::new(
                            (m - 1) as nat,
                            |q: int| (i as int, dests[way as int], q + 1),
                        ).push((i as int, dests[way as int], m as int)));
                        m = m + 1;
                    }
                    assert(Seq::new(movable as nat, |q: int| (i as int, dests[way as int], q + 1))
                        =~= Seq::new(
                        (m - 1) as nat,
                        |q: int| (i as int, dests[way as int], q + 1),
                    ));
                    assert(action_triples(actions@) =~= base + stack_moves(
                        i as int,
                        dests,
                        movable as nat,
                        way + 1,
                    ));
                    way = way + 1;
                }
                assert(cell_indices(to@).len() == to@.len());
                assert(action_triples(actions@) =~= moves_below(s, d as int, i + 1));
            } else {
                assert(action_triples(actions@) =~= moves_below(s, d as int, i + 1));
            }
            i = i + 1;
        }
        actions
    }

    /// The board drawn as text: each cell's mark at its place in the layout
    /// of `alignment`.
    pub fn visual(&self) -> (r: String)
        requires
            self.wf(),
        ensures
            r@.len() == TEXT_LEN,
            forall|t: int|
                0 <= t < TEXT_LEN ==> #[trigger] r@[t] == drawn(
                    self.first(),
                    self.second(),
                    POSITIONS as int,
                    t,
                ),
    {
        let mut board: Vec<i64> = Vec::new();
        let mut c: usize = 0;
        while c < POSITIONS
            invariant
                c <= POSITIONS,
                board@.len() == c,
                forall|k: int| 0 <= k < c ==> #[trigger] board@[k] == 0,
            decreases POSITIONS - c,
        {
            board.push(0);
            c = c + 1;
        }
        let mut i: usize = 0;
        while i < NUM_PIECES
            invariant
                i <= NUM_PIECES,
                self.wf(),
                board@.len() == POSITIONS,
                forall|k: int|
                    0 <= k < POSITIONS ==> #[trigger] board@[k] == count_before(self.first(), k, i as int)
                        - count_before(self.second(), k, i as int),
            decreases NUM_PIECES - i,
        {
            proof {
                lemma_count_before_bounded(self.first(), self.first()[i as int], i as int);
                lemma_count_before_bounded(self.second(), self.second()[i as int], i as int);
                lemma_count_before_bounded(self.first(), self.second()[i as int], i as int);
                lemma_count_before_bounded(self.second(), self.first()[i as int], i as int);
            }
            assert(self.first()[i as int] == self.first_pos[i as int]@);
            let at = usize::from(self.first_pos[i]);
            board.set(at, board[at] + 1);
            assert(self.second()[i as int] == self.second_pos[i as int]@);
            let at = usize::from(self.second_pos[i]);
            board.set(at, board[at] - 1);
            i = i + 1;
        }
        let (_h, _w, align) = alignment();
        let mut text: Vec<char> = Vec::new();
        let mut t: usize = 0;
        while t < TEXT_LEN
            invariant
                t <= TEXT_LEN,
                text@.len() == t,
                forall|k: int| 0 <= k < t ==> #[trigger] text@[k] == blank_text(k),
            decreases TEXT_LEN - t,
        {
            if t % (BOARD_WIDTH + 1) == BOARD_WIDTH {
                text.push('\n');
            } else {
                text.push(' ');
            }
            t = t + 1;
        }
        let mut c: usize = 0;
        while c < POSITIONS
            invariant
                c <= POSITIONS,
                self.wf(),
                text@.len() == TEXT_LEN,
                board@.len() == POSITIONS,
                align@.len() == POSITIONS,
                forall|k: int|
                    0 <= k < POSITIONS ==> #[trigger] board@[k] == count_at(self.first(), k)
                        - count_at(self.second(), k),
                forall|k: int|
                    0 <= k < POSITIONS ==> (#[trigger] align@[k]).0 == anchor(k).0 && align@[k].1
                        == anchor(k).1,
                forall|k: int|
                    0 <= k < POSITIONS ==> (#[trigger] align@[k]).0 < BOARD_HEIGHT && align@[k].1
                        + 2 <= BOARD_WIDTH,
                forall|k: int|
                    0 <= k < TEXT_LEN ==> #[trigger] text@[k] == drawn(
                        self.first(),
                        self.second(),
                        c as int,
                        k,
                    ),
            decreases POSITIONS - c,
        {
            let (y, x) = align[c];
            let net = board[c];
            proof {
                lemma_count_before_bounded(self.first(), c as int, NUM_PIECES as int);
                lemma_count_before_bounded(self.second(), c as int, NUM_PIECES as int);
            }
            let (m0, m1) = if net == 0 {
                ('.', '.')
            } else if net > 0 {
                ('O', digit_char(net))
            } else {
                ('X', digit_char(-net))
            };
            assert(y * (BOARD_WIDTH + 1) + x + 1 < TEXT_LEN) by (nonlinear_arith)
                requires
                    y < BOARD_HEIGHT,
                    x + 2 <= BOARD_WIDTH,
            ;
            let at = y * (BOARD_WIDTH + 1) + x;
            assert(at == text_offset(c as int));
            text.set(at, m0);
            text.set(at + 1, m1);
            assert forall|k: int| 0 <= k < TEXT_LEN implies #[trigger] text@[k] == drawn(
                self.first(),
                self.second(),
                c + 1,
                k,
            ) by {}
            c = c + 1;
        }
        string_of_chars(&text)
    }

    /// Plays the legal move for `sticks` that `pick` names, counting round
    /// the list of `actions` so that every word names one: the move of a
    /// playout once `pick` is drawn at random.
    pub fn play_nth(&mut self, sticks: Sticks, pick: u64)
        requires
            old(self).wf(),
            old(self).result() == 0,
            is_throw(sticks@),
        ensures
            final(self).wf(),
            legal_moves(old(self).mover(), sticks@).len() > 0,
            legal_moves(old(self).mover(), sticks@).len() <= usize::MAX,
            (final(self).first(), final(self).second(), final(self).first_to_move()) == old(
                self,
            ).after_move(
                legal_moves(old(self).mover(), sticks@)[(pick % legal_moves(
                    old(self).mover(),
                    sticks@,
                ).len() as u64) as int],
            ),
    {
        let actions = self.actions(sticks);
        proof {
            lemma_moves_exist(self.mover(), sticks@);
        }
        let num = (pick % (actions.len() as u64)) as usize;
        assert(action_triples(actions@)[num as int] == (
            actions@[num as int].from_cell(),
            actions@[num as int].to_cell(),
            actions@[num as int].count(),
        ));
        self.act(actions[num]);
    }

    pub fn is_end(&self) -> (r: bool)
        ensures
            r == (self.result() != 0),
    {
        self.winner != 0
    }

    pub fn is_win_first(&self) -> (r: bool)
        ensures
            r == (self.result() == 1),
    {
        self.winner == 1
    }

    pub fn is_first(&self) -> (r: bool)
        ensures
            r == self.first_to_move(),
    {
        self.first_turn
    }

    /// The first side's pieces, in piece order.
    pub fn first_pieces(&self) -> (r: [Position; NUM_PIECES])
        ensures
            cell_indices(r@) == self.first(),
    {
        self.first_pos
    }

    /// The second side's pieces, in piece order.
    pub fn second_pieces(&self) -> (r: [Position; NUM_PIECES])
        ensures
            cell_indices(r@) == self.second(),
    {
        self.second_pos
    }

    fn check_end(&mut self)
        ensures
            final(self).first() == old(self).first(),
            final(self).second() == old(self).second(),
            final(self).first_to_move() == old(self).first_to_move(),
            final(self).result() == outcome(old(self).first(), old(self).second()),
    {
        let mut first = true;
        let mut second = true;
        let mut i: usize = 0;
        while i < NUM_PIECES
            invariant
                i <= NUM_PIECES,
                self.first().len() == NUM_PIECES,
                self.second().len() == NUM_PIECES,
                first == forall|j: int| 0 <= j < i ==> #[trigger] self.first()[j] == S_ON_GOAL,
                second == forall|j: int| 0 <= j < i ==> #[trigger] self.second()[j] == S_ON_GOAL,
            decreases NUM_PIECES - i,
        {
            assert(self.first()[i as int] == self.first_pos[i as int]@);
            assert(self.second()[i as int] == self.second_pos[i as int]@);
            if usize::from(self.first_pos[i]) != S_ON_GOAL {
                first = false;
            }
            if usize::from(self.second_pos[i]) != S_ON_GOAL {
                second = false;
            }
            i = i + 1;
        }
        if first {
            self.winner = 1;
        } else if second {
            self.winner = -1;
        } else {
            self.winner = 0;
        }
    }

    fn current_pieces(&self) -> (r: &[Position; NUM_PIECES])
        ensures
            cell_indices(r@) == self.mover(),
    {
        if self.first_turn {
            &self.first_pos
        } else {
            &self.second_pos
        }
    }

    /// Places the mover's piece `i` on `p`.
    fn set_current_piece(&mut self, i: usize, p: Position)
        requires
            i < NUM_PIECES,
        ensures
            final(self).first_to_move() == old(self).first_to_move(),
            final(self).result() == old(self).result(),
            final(self).mover() == old(self).mover().update(i as int, p@),
            final(self).waiting() == old(self).waiting(),
    {
        if self.first_turn {
            self.first_pos[i] = p;
        } else {
            self.second_pos[i] = p;
        }
        assert(self.mover() =~= old(self).mover().update(i as int, p@));
    }

    /// The mover's pieces on `at`, in piece order.
    fn get_piece(&self, at: Position) -> (r: Vec<usize>)
        ensures
            r@.len() == count_at(self.mover(), at@),
            forall|k: int|
                0 <= k < r@.len() ==> {
                    &&& (#[trigger] r@[k]) < NUM_PIECES
                    &&& self.mover()[r@[k] as int] == at@
                    &&& count_before(self.mover(), at@, r@[k] as int) == k
                },
    {
        let pieces = self.current_pieces();
        let mut v: Vec<usize> = Vec::new();
        let mut i: usize = 0;
        while i < NUM_PIECES
            invariant
                i <= NUM_PIECES,
                cell_indices(pieces@) == self.mover(),
                self.mover().len() == NUM_PIECES,
                v@.len() == count_before(self.mover(), at@, i as int),
                forall|k: int|
                    0 <= k < v@.len() ==> {
                        &&& (#[trigger] v@[k]) < i
                        &&& self.mover()[v@[k] as int] == at@
                        &&& count_before(self.mover(), at@, v@[k] as int) == k
                    },
            decreases NUM_PIECES - i,
        {
            assert(self.mover()[i as int] == pieces[i as int]@);
            if usize::from(pieces[i]) == usize::from(at) {
                v.push(i);
            }
            i = i + 1;
        }
        v
    }

    /// How many of the mover's pieces stand on each cell.
    fn my_pieces(&self) -> (r: Vec<usize>)
        requires
            self.wf(),
        ensures
            r@.len() == POSITIONS,
            forall|c: int| 0 <= c < POSITIONS ==> #[trigger] r@[c] == count_at(self.mover(), c),
    {
        let mut board: Vec<usize> = Vec::new();
        let mut c: usize = 0;
        while c < POSITIONS
            invariant
                c <= POSITIONS,
                board@.len() == c,
                forall|k: int| 0 <= k < c ==> #[trigger] board@[k] == 0,
            decreases POSITIONS - c,
        {
            board.push(0);
            c = c + 1;
        }
        let mut i: usize = 0;
        while i < NUM_PIECES
            invariant
                i <= NUM_PIECES,
                self.wf(),
                board@.len() == POSITIONS,
                forall|k: int|
                    0 <= k < POSITIONS ==> #[trigger] board@[k] == count_before(
                        self.mover(),
                        k,
                        i as int,
                    ),
            decreases NUM_PIECES - i,
        {
            let pos = self.current_pieces()[i];
            assert(pos@ == self.mover()[i as int]);
            let at = usize::from(pos);
            assert(count_before(self.mover(), at as int, i as int) <= i) by {
                lemma_count_before_bounded(self.mover(), at as int, i as int);
            }
            board.set(at, board[at] + 1);
            i = i + 1;
        }
        board
    }
}

/// A game is over exactly when one side has every piece on the goal, and
/// the winner is that side.
pub proof fn lemma_terminal_iff_side_home(s: State)
    requires
        s.wf(),
    ensures
        (s.result() != 0) == (all_at_goal(s.first()) || all_at_goal(s.second())),
        (s.result() == 1) == all_at_goal(s.first()),
        s.result() == -1 ==> all_at_goal(s.second()),
{
}

/// Landing off the goal on a cell held by the opponent sends every one of
/// the opponent's pieces there back to the start, however many there are,
/// and touches none of the opponent's other pieces.
pub proof fn lemma_capture_sends_stack_home(s: State, act: Action)
    requires
        s.wf(),
        is_cell(act.to_cell()),
        act.to_cell() != S_ON_GOAL,
        1 <= act.count() <= count_at(s.mover(), act.from_cell()),
    ensures
        ({
            let hit = if s.first_to_move() {
                s.after(act).1
            } else {
                s.after(act).0
            };
            &&& hit.len() == NUM_PIECES
            &&& forall|i: int|
                0 <= i < NUM_PIECES ==> #[trigger] hit[i] == if s.waiting()[i] == act.to_cell() {
                    S_ON_START as int
                } else {
                    s.waiting()[i]
                }
            &&& act.to_cell() != S_ON_START ==> count_at(hit, act.to_cell()) == 0
            &&& act.to_cell() != S_ON_START ==> count_at(hit, S_ON_START as int) == count_at(
                s.waiting(),
                S_ON_START as int,
            ) + count_at(s.waiting(), act.to_cell())
        }),
{
    if act.to_cell() != S_ON_START {
        lemma_capture_counts(s.waiting(), act.to_cell(), NUM_PIECES as int);
    }
}

/// Counting through a capture on `to`: nothing is left on `to`, and the
/// start gains what `to` held.
proof fn lemma_capture_counts(w: Seq<int>, to: int, i: int)
    requires
        0 <= i <= w.len(),
        to != S_ON_GOAL,
        to != S_ON_START,
    ensures
        count_before(capture(w, to), to, i) == 0,
        count_before(capture(w, to), S_ON_START as int, i) == count_before(
            w,
            S_ON_START as int,
            i,
        ) + count_before(w, to, i),
    decreases i,
{
    if i > 0 {
        lemma_capture_counts(w, to, i - 1);
    }
}

/// A side with a piece off the goal always has a legal move.
pub proof fn lemma_moves_exist(s: Seq<int>, d: int)
    requires
        s.len() == NUM_PIECES,
        all_cells(s),
        !all_at_goal(s),
        is_throw(d),
    ensures
        legal_moves(s, d).len() > 0,
{
    let j = choose|j: int| 0 <= j < s.len() && s[j] != S_ON_GOAL;
    let c = s[j];
    lemma_count_before_increases_to_end(s, c, j);
    lemma_destinations_are_cells(c, d);
    assert(destinations(c, d).len() >= 1);
    let dests = destinations(c, d);
    assert(movable_count(s, c) >= 1);
    assert(stack_moves(c, dests, movable_count(s, c), dests.len() as int).len() >= 1);
    lemma_moves_below_grow(s, d, c, POSITIONS as int);
}

/// A piece on a cell is counted there.
proof fn lemma_count_before_increases_to_end(s: Seq<int>, c: int, j: int)
    requires
        0 <= j < s.len(),
        s[j] == c,
    ensures
        count_at(s, c) >= 1,
{
    if j + 1 < s.len() {
        lemma_count_before_increases(s, c, j, s.len() as int);
    }
}

/// The moves below `n` include those out of each cell `c` below `n`.
proof fn lemma_moves_below_grow(s: Seq<int>, d: int, c: int, n: int)
    requires
        0 <= c < n,
    ensures
        moves_below(s, d, n).len() >= cell_moves(s, d, c).len(),
    decreases n,
{
    if c < n - 1 {
        lemma_moves_below_grow(s, d, c, n - 1);
    }
}

/// No more than `i` of the first `i` cells can be `c`.
proof fn lemma_count_before_bounded(s: Seq<int>, c: int, i: int)
    requires
        0 <= i,
    ensures
        count_before(s, c, i) <= i,
    decreases i,
{
    if i > 0 {
        lemma_count_before_bounded(s, c, i - 1);
    }
}

/// Two different pieces on the same cell have different ranks in piece order.
proof fn lemma_count_before_increases(s: Seq<int>, c: int, i: int, j: int)
    requires
        0 <= i < j,
        s[i] == c,
    ensures
        count_before(s, c, i) < count_before(s, c, j),
    decreases j,
{
    if j > i + 1 {
        lemma_count_before_increases(s, c, i, j - 1);
    }
}

} // verus!
