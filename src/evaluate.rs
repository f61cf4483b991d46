//! Win-chance estimate: expectimax over throws and moves to a fixed depth,
//! random playouts beyond it.
//!
//! Values are exact: at depth `ply` a value is a count of wins out of
//! `scale(ply, rollout)`, that is `THROW_OUTCOMES` to the power `ply` times the
//! number of playouts made at each leaf.
use crate::game::{
    action_triples, board_mover, board_step, finished, is_move_of, legal_moves, outcome, State,
};
use crate::sticks::{next_word, throw_table, weight_sum, Sticks, THROW_OUTCOMES};
use rand::rngs::StdRng;
use vstd::prelude::*;

verus! {

/// A playout that has not ended after this many moves is scored as no win.
pub const MAX_PLAYOUT_MOVES: u64 = 1000000;

/// `THROW_OUTCOMES` to the power `n`.
pub open spec fn outcomes_pow(n: nat) -> nat
    decreases n,
{
    if n == 0 {
        1
    } else {
        (THROW_OUTCOMES as nat) * outcomes_pow((n - 1) as nat)
    }
}

/// The count that stands for certainty at depth `ply` with `rollout`
/// playouts at each leaf.
pub open spec fn scale(ply: nat, rollout: nat) -> nat {
    outcomes_pow(ply) * rollout
}

/// The search settings: depth in moves, and playouts at each leaf.
#[derive(Debug, Clone, Copy)]
pub struct Opt {
    pub ply: usize,
    pub rollout: usize,
}

impl Opt {
    /// Settings that the search can run with: at least one playout, and a
    /// scale that fits in a machine word.
    pub open spec fn is_usable(self) -> bool {
        &&& self.rollout >= 1
        &&& scale(self.ply as nat, self.rollout as nat) <= u64::MAX
    }
}

/// 1 when the side `first` (the first side or not) has won a finished game
/// in `s`, else 0.
pub open spec fn win_for(s: State, first: bool) -> nat {
    if (s.result() == 1) == first {
        1
    } else {
        0
    }
}

/// Deeper searches need larger counts, and every count is at least the
/// number of playouts.
proof fn lemma_scale_monotone(a: nat, b: nat, rollout: nat)
    requires
        a <= b,
    ensures
        outcomes_pow(a) <= outcomes_pow(b),
        outcomes_pow(a) >= 1,
        scale(a, rollout) <= scale(b, rollout),
        rollout >= 1 ==> outcomes_pow(a) <= scale(b, rollout),
    decreases b,
{
    if a < b {
        lemma_scale_monotone(a, (b - 1) as nat, rollout);
    }
    if a > 0 {
        lemma_scale_monotone((a - 1) as nat, (a - 1) as nat, rollout);
    }
    assert(outcomes_pow(a) * rollout <= outcomes_pow(b) * rollout) by (nonlinear_arith)
        requires
            outcomes_pow(a) <= outcomes_pow(b),
    ;
    assert(rollout >= 1 ==> outcomes_pow(b) <= outcomes_pow(b) * rollout) by (nonlinear_arith);
}

proof fn lemma_mul_assoc16(x: nat, y: nat)
    ensures
        (THROW_OUTCOMES * x) * y == THROW_OUTCOMES * (x * y),
{
    assert((16 * x) * y == 16 * (x * y)) by (nonlinear_arith);
}

/// The weights of the first `k` throws add up one by one, to no more than
/// `THROW_OUTCOMES`.
proof fn lemma_weight_prefix(k: nat)
    requires
        k <= throw_table().len(),
    ensures
        k < throw_table().len() ==> weight_sum(throw_table().take(k as int + 1)) == weight_sum(
            throw_table().take(k as int),
        ) + throw_table()[k as int].0,
        weight_sum(throw_table().take(k as int)) <= THROW_OUTCOMES,
    decreases throw_table().len() - k,
{
    let t = throw_table();
    if k < t.len() {
        assert(t.take(k as int + 1).drop_last() =~= t.take(k as int));
        lemma_weight_prefix(k + 1);
    } else {
        assert(t.take(k as int) =~= t);
        crate::sticks::lemma_distribution_sums_to_one();
    }
}

/// The value of a throw to the mover, given the opponent's value after each
/// of the mover's moves (each out of `unit`): the best of `unit` less that
/// value, or 0 when there is no move.
pub open spec fn best_value(unit: int, replies: Seq<u64>) -> int
    decreases replies.len(),
{
    if replies.len() == 0 {
        0
    } else {
        let rest = best_value(unit, replies.drop_last());
        let last = unit - replies.last();
        if last > rest {
            last
        } else {
            rest
        }
    }
}

/// The sum of `values`, one for each throw in the order of
/// `Sticks::distribution`, each weighted by how many of the `THROW_OUTCOMES`
/// landings give that throw.
pub open spec fn throw_weighted_sum(values: Seq<u64>) -> int
    decreases values.len(),
{
    if values.len() == 0 {
        0
    } else {
        throw_weighted_sum(values.drop_last()) + throw_table()[values.len() - 1].0
            * values.last()
    }
}

/// The mover's value for one throw, from the opponent's value after each
/// move; the first of equal values is as good as any.
pub fn best_reply(unit: u64, replies: &Vec<u64>) -> (r: u64)
    requires
        forall|k: int| 0 <= k < replies@.len() ==> #[trigger] replies@[k] <= unit,
    ensures
        r == best_value(unit as int, replies@),
        r <= unit,
{
    let mut res: u64 = 0;
    let mut k: usize = 0;
    while k < replies.len()
        invariant
            k <= replies@.len(),
            forall|q: int| 0 <= q < replies@.len() ==> #[trigger] replies@[q] <= unit,
            res == best_value(unit as int, replies@.take(k as int)),
            res <= unit,
        decreases replies@.len() - k,
    {
        assert(replies@.take(k + 1).drop_last() =~= replies@.take(k as int));
        let p = unit - replies[k];
        if p > res {
            res = p;
        }
        k = k + 1;
    }
    assert(replies@.take(k as int) =~= replies@);
    res
}

/// A state's value before the throw, out of `THROW_OUTCOMES * unit`, from
/// its value after each throw, out of `unit`.
pub fn weigh_throws(unit: u64, values: &Vec<u64>) -> (r: u64)
    requires
        values@.len() == throw_table().len(),
        forall|k: int| 0 <= k < values@.len() ==> #[trigger] values@[k] <= unit,
        THROW_OUTCOMES * unit <= u64::MAX,
    ensures
        r == throw_weighted_sum(values@),
        r <= THROW_OUTCOMES * unit,
{
    let sticks = Sticks::distribution();
    let mut sum: u64 = 0;
    let mut k: usize = 0;
    while k < sticks.len()
        invariant
            k <= sticks@.len(),
            sticks@.len() == throw_table().len(),
            values@.len() == throw_table().len(),
            forall|q: int|
                0 <= q < sticks@.len() ==> (#[trigger] sticks@[q]).0 == throw_table()[q].0
                    && sticks@[q].1@ == throw_table()[q].1,
            forall|q: int| 0 <= q < values@.len() ==> #[trigger] values@[q] <= unit,
            THROW_OUTCOMES * unit <= u64::MAX,
            sum == throw_weighted_sum(values@.take(k as int)),
            sum <= weight_sum(throw_table().take(k as int)) * unit,
        decreases sticks@.len() - k,
    {
        let (p, _s) = sticks[k];
        let o = values[k];
        proof {
            lemma_weight_prefix(k as nat);
            lemma_weight_prefix((k + 1) as nat);
            let acc = weight_sum(throw_table().take(k as int));
            assert(sum + p * o <= (acc + p) * unit && (acc + p) * unit <= THROW_OUTCOMES * unit)
                by (nonlinear_arith)
                requires
                    sum <= acc * unit,
                    o <= unit,
                    acc + p <= THROW_OUTCOMES,
            ;
            assert(values@.take(k + 1).drop_last() =~= values@.take(k as int));
        }
        sum = sum + p * o;
        k = k + 1;
    }
    proof {
        assert(throw_table().take(k as int) =~= throw_table());
        assert(values@.take(k as int) =~= values@);
        crate::sticks::lemma_distribution_sums_to_one();
    }
    sum
}

/// `unit` when the side to move on the finished board `b` has won, else 0.
pub open spec fn settled_value(b: (Seq<int>, Seq<int>, bool), unit: int) -> int {
    if (outcome(b.0, b.1) == 1) == b.2 {
        unit
    } else {
        0
    }
}

/// `path` is a playout: each board follows the one before by a legal move
/// in an unfinished game, and it stops at the first finished board or
/// after `MAX_PLAYOUT_MOVES` moves.
pub open spec fn is_playout(path: Seq<(Seq<int>, Seq<int>, bool)>) -> bool {
    &&& path.len() >= 1
    &&& path.len() <= MAX_PLAYOUT_MOVES + 1
    &&& forall|i: int|
        0 <= i < path.len() - 1 ==> !finished(#[trigger] path[i]) && is_move_of(
            path[i],
            path[i + 1],
        )
    &&& finished(path.last()) || path.len() == MAX_PLAYOUT_MOVES + 1
}

/// 1 when the playout ends in a game won by side `first` (the first side or
/// not), else 0.
pub open spec fn playout_score(path: Seq<(Seq<int>, Seq<int>, bool)>, first: bool) -> int {
    if finished(path.last()) && (outcome(path.last().0, path.last().1) == 1) == first {
        1
    } else {
        0
    }
}

/// `v` is the score, for its side to move, of some playout from board `b`.
pub open spec fn is_playout_result(b: (Seq<int>, Seq<int>, bool), v: int) -> bool {
    exists|path: Seq<(Seq<int>, Seq<int>, bool)>|
        #![trigger playout_score(path, b.2)]
        path[0] == b && is_playout(path) && v == playout_score(path, b.2)
}

pub open spec fn total(s: Seq<u64>) -> int
    decreases s.len(),
{
    if s.len() == 0 {
        0
    } else {
        total(s.drop_last()) + s.last()
    }
}

/// `r` is a value that the search gives board `b` at depth `ply` with
/// `rollout` playouts at each leaf, out of `scale(ply, rollout)`: exact on a
/// finished game; at depth 0 the number of won playouts; deeper, the
/// throw-weighted sum of the best reply for each throw.
pub open spec fn search_fits(b: (Seq<int>, Seq<int>, bool), ply: nat, rollout: nat, r: int) -> bool
    decreases ply, 1int,
{
    if finished(b) {
        r == settled_value(b, scale(ply, rollout) as int)
    } else if ply == 0 {
        exists|scores: Seq<u64>|
            #![trigger total(scores)]
            scores.len() == rollout && (forall|i: int|
                0 <= i < scores.len() ==> is_playout_result(b, (#[trigger] scores[i]) as int))
                && r == total(scores)
    } else {
        exists|values: Seq<u64>|
            #![trigger throw_weighted_sum(values)]
            values.len() == throw_table().len() && (forall|k: int|
                0 <= k < values.len() ==> throw_fits(
                    b,
                    throw_table()[k].1,
                    ply,
                    rollout,
                    (#[trigger] values[k]) as int,
                )) && r == throw_weighted_sum(values)
    }
}

/// `v` is the value to the side to move on `b` of a throw of `d`, searching
/// to depth `ply`: the best of its moves, each valued as certainty less
/// what the search gives the opponent one level down.
pub open spec fn throw_fits(b: (Seq<int>, Seq<int>, bool), d: int, ply: nat, rollout: nat, v: int) -> bool
    decreases ply, 0int,
{
    if ply == 0 {
        false
    } else {
        exists|replies: Seq<u64>|
            #![trigger best_value(scale((ply - 1) as nat, rollout) as int, replies)]
            replies.len() == legal_moves(board_mover(b), d).len() && (forall|j: int|
                0 <= j < replies.len() ==> search_fits(
                    board_step(b, legal_moves(board_mover(b), d)[j]),
                    (ply - 1) as nat,
                    rollout,
                    (#[trigger] replies[j]) as int,
                )) && v == best_value(scale((ply - 1) as nat, rollout) as int, replies)
    }
}

/// One legal move for a valid throw takes a board to the next one.
proof fn lemma_step_is_move(
    b: (Seq<int>, Seq<int>, bool),
    next: (Seq<int>, Seq<int>, bool),
    d: int,
    j: int,
)
    requires
        crate::position::is_throw(d),
        0 <= j < legal_moves(board_mover(b), d).len(),
        next == board_step(b, legal_moves(board_mover(b), d)[j]),
    ensures
        is_move_of(b, next),
{
}

/// A request to evaluate one state.
#[derive(Debug, Clone, Copy)]
pub struct Evaluate {
    option: Opt,
    state: State,
}

impl Evaluate {
    pub closed spec fn option(self) -> Opt {
        self.option
    }

    pub closed spec fn state(self) -> State {
        self.state
    }

    pub fn new(option: Opt, state: State) -> (r: Self)
        ensures
            r.option() == option,
            r.state() == state,
    {
        Evaluate { option, state }
    }

    /// The count that stands for certainty at the requested depth.
    pub fn weight_scale(&self) -> (r: u64)
        requires
            self.option().is_usable(),
        ensures
            r == scale(self.option().ply as nat, self.option().rollout as nat),
    {
        self.scale_at(self.option.ply)
    }

    /// The chance that the side to move in the evaluated state wins, as a
    /// count out of `weight_scale()`: a finished game is certain for its
    /// winner; otherwise the search of `search_fits` to the requested depth,
    /// with playouts below it.
    pub fn win_weight(&self, rng: &mut StdRng) -> (r: u64)
        requires
            self.state().wf(),
            self.option().is_usable(),
        ensures
            r <= scale(self.option().ply as nat, self.option().rollout as nat),
            search_fits(
                self.state().board(),
                self.option().ply as nat,
                self.option().rollout as nat,
                r as int,
            ),
            self.state().result() != 0 ==> r == settled_value(
                self.state().board(),
                scale(self.option().ply as nat, self.option().rollout as nat) as int,
            ),
    {
        self.expand(&self.state, self.option.ply, rng)
    }

    fn scale_at(&self, ply: usize) -> (r: u64)
        requires
            self.option().is_usable(),
            ply <= self.option().ply,
        ensures
            r == scale(ply as nat, self.option().rollout as nat),
    {
        proof {
            lemma_scale_monotone(ply as nat, self.option.ply as nat, self.option.rollout as nat);
        }
        let mut v: u64 = 1;
        let mut i: usize = 0;
        while i < ply
            invariant
                i <= ply,
                v == outcomes_pow(i as nat),
                scale(ply as nat, self.option().rollout as nat) <= u64::MAX,
                self.option().rollout >= 1,
            decreases ply - i,
        {
            proof {
                lemma_scale_monotone((i + 1) as nat, ply as nat, self.option.rollout as nat);
            }
            v = v * 16;
            i = i + 1;
        }
        v * self.option.rollout as u64
    }

    /// `Some(1)` when the game in `state` is over and side `first` won it,
    /// `Some(0)` when it is over and that side lost, `None` while it goes on.
    fn leaf(state: &State, first: bool) -> (r: Option<u64>)
        ensures
            (state.result() != 0) == (r is Some),
            r matches Some(v) ==> v == win_for(*state, first),
    {
        if state.is_end() {
            if state.is_win_first() == first {
                return Some(1);
            } else {
                return Some(0);
            }
        }
        None
    }

    fn expand(&self, state: &State, ply: usize, rng: &mut StdRng) -> (r: u64)
        requires
            state.wf(),
            self.option().is_usable(),
            ply <= self.option().ply,
        ensures
            r <= scale(ply as nat, self.option().rollout as nat),
            search_fits(state.board(), ply as nat, self.option().rollout as nat, r as int),
        decreases ply, 1int,
    {
        if let Some(p) = Self::leaf(state, state.is_first()) {
            let sc = self.scale_at(ply);
            assert(p * sc <= sc && p * sc == (if p == 1 {
                sc
            } else {
                0
            })) by (nonlinear_arith)
                requires
                    p <= 1,
            ;
            return p * sc;
        }
        if ply == 0 {
            assert(outcomes_pow(ply as nat) == 1);
            let ghost rollout = self.option().rollout as nat;
            assert(outcomes_pow(ply as nat) * rollout == rollout) by (nonlinear_arith)
                requires
                    outcomes_pow(ply as nat) == 1,
            ;
            return self.rollout(state, rng);
        }
        let sticks = Sticks::distribution();
        let unit = self.scale_at(ply - 1);
        proof {
            lemma_scale_monotone(ply as nat, self.option.ply as nat, self.option.rollout as nat);
            assert(scale(ply as nat, self.option.rollout as nat) == THROW_OUTCOMES * unit) by {
                assert(outcomes_pow(ply as nat) == THROW_OUTCOMES * outcomes_pow((ply - 1) as nat));
                lemma_mul_assoc16(outcomes_pow((ply - 1) as nat), self.option.rollout as nat);
            }
        }
        let mut values: Vec<u64> = Vec::new();
        let mut k: usize = 0;
        while k < sticks.len()
            invariant
                k <= sticks@.len(),
                sticks@.len() == throw_table().len(),
                forall|q: int|
                    0 <= q < sticks@.len() ==> (#[trigger] sticks@[q]).0 == throw_table()[q].0
                        && sticks@[q].1@ == throw_table()[q].1,
                state.wf(),
                state.result() == 0,
                self.option().is_usable(),
                1 <= ply <= self.option().ply,
                unit == scale((ply - 1) as nat, self.option().rollout as nat),
                values@.len() == k,
                forall|q: int| 0 <= q < k ==> #[trigger] values@[q] <= unit,
                forall|q: int|
                    0 <= q < k ==> throw_fits(
                        state.board(),
                        throw_table()[q].1,
                        ply as nat,
                        self.option().rollout as nat,
                        (#[trigger] values@[q]) as int,
                    ),
            decreases sticks@.len() - k,
        {
            let (_p, s) = sticks[k];
            let o = self.solve(state, ply, s, rng);
            values.push(o);
            k = k + 1;
        }
        let r = weigh_throws(unit, &values);
        assert(r == throw_weighted_sum(values@));
        r
    }

    /// The best value among the mover's moves for a throw of `sticks`, seen
    /// from the mover: certainty less the opponent's value after the move.
    fn solve(&self, state: &State, ply: usize, sticks: Sticks, rng: &mut StdRng) -> (r: u64)
        requires
            state.wf(),
            state.result() == 0,
            self.option().is_usable(),
            1 <= ply <= self.option().ply,
            1 <= sticks@ <= 5,
        ensures
            r <= scale((ply - 1) as nat, self.option().rollout as nat),
            throw_fits(state.board(), sticks@, ply as nat, self.option().rollout as nat, r as int),
        decreases ply, 0int,
    {
        let actions = state.actions(sticks);
        let ghost legal = legal_moves(state.mover(), sticks@);
        let unit = self.scale_at(ply - 1);
        let mut replies: Vec<u64> = Vec::new();
        let mut k: usize = 0;
        while k < actions.len()
            invariant
                k <= actions@.len(),
                state.wf(),
                self.option().is_usable(),
                1 <= ply <= self.option().ply,
                unit == scale((ply - 1) as nat, self.option().rollout as nat),
                legal == legal_moves(state.mover(), sticks@),
                action_triples(actions@) == legal,
                replies@.len() == k,
                forall|q: int| 0 <= q < k ==> #[trigger] replies@[q] <= unit,
                forall|q: int|
                    0 <= q < k ==> search_fits(
                        board_step(state.board(), legal[q]),
                        (ply - 1) as nat,
                        self.option().rollout as nat,
                        (#[trigger] replies@[q]) as int,
                    ),
                forall|q: int|
                    0 <= q < actions@.len() ==> {
                        &&& crate::position::is_cell((#[trigger] actions@[q]).to_cell())
                        &&& 1 <= actions@[q].count() <= crate::game::count_at(
                            state.mover(),
                            actions@[q].from_cell(),
                        )
                    },
            decreases actions@.len() - k,
        {
            let mut s = *state;
            s.act(actions[k]);
            assert(legal[k as int] == action_triples(actions@)[k as int]);
            assert(s.board() == board_step(state.board(), legal[k as int]));
            let v = self.expand(&s, ply - 1, rng);
            replies.push(v);
            k = k + 1;
        }
        let r = best_reply(unit, &replies);
        assert(legal.len() == actions@.len());
        assert(r == best_value(scale((ply - 1) as nat, self.option().rollout as nat) as int, replies@));
        r
    }

    /// The number of playouts from `state` that its side to move wins.
    fn rollout(&self, state: &State, rng: &mut StdRng) -> (r: u64)
        requires
            state.wf(),
            self.option().is_usable(),
        ensures
            r <= self.option().rollout,
            exists|scores: Seq<u64>|
                #![trigger total(scores)]
                scores.len() == self.option().rollout && (forall|i: int|
                    0 <= i < scores.len() ==> is_playout_result(
                        state.board(),
                        (#[trigger] scores[i]) as int,
                    )) && r == total(scores),
    {
        let mut sum: u64 = 0;
        let ghost mut scores: Seq<u64> = Seq::empty();
        let mut i: usize = 0;
        while i < self.option.rollout
            invariant
                i <= self.option().rollout,
                sum <= i,
                state.wf(),
                scores.len() == i,
                sum == total(scores),
                forall|q: int|
                    0 <= q < scores.len() ==> is_playout_result(
                        state.board(),
                        (#[trigger] scores[q]) as int,
                    ),
            decreases self.option().rollout - i,
        {
            let s = *state;
            let v = self.rollout_once(s, rng);
            proof {
                let old_scores = scores;
                scores = scores.push(v);
                assert(scores.drop_last() =~= old_scores);
            }
            sum = sum + v;
            i = i + 1;
        }
        assert(sum == total(scores));
        sum
    }

    /// Plays `state` out with random throws and uniformly random moves;
    /// 1 if the side to move in `state` wins, else 0.
    fn rollout_once(&self, state: State, rng: &mut StdRng) -> (r: u64)
        requires
            state.wf(),
        ensures
            r <= 1,
            is_playout_result(state.board(), r as int),
    {
        let first = state.is_first();
        let ghost start = state.board();
        let mut state = state;
        let ghost mut path: Seq<(Seq<int>, Seq<int>, bool)> = seq![start];
        let mut moves: u64 = 0;
        while !state.is_end() && moves < MAX_PLAYOUT_MOVES
            invariant
                state.wf(),
                moves <= MAX_PLAYOUT_MOVES,
                first == start.2,
                path.len() == moves + 1,
                path[0] == start,
                path.last() == state.board(),
                forall|i: int|
                    0 <= i < path.len() - 1 ==> !finished(#[trigger] path[i]) && is_move_of(
                        path[i],
                        path[i + 1],
                    ),
            decreases MAX_PLAYOUT_MOVES - moves,
        {
            let sticks = Sticks::throw(rng);
            let pick = next_word(rng);
            let ghost before = state.board();
            let ghost legal = legal_moves(state.mover(), sticks@);
            state.play_nth(sticks, pick);
            proof {
                let n = legal.len() as u64;
                assert(n as int == legal.len());
                let j = (pick % n) as int;
                assert(0 <= j < n) by (nonlinear_arith)
                    requires
                        j == pick % n,
                        n > 0,
                ;
                assert(legal == legal_moves(board_mover(before), sticks@));
                assert(state.board() == board_step(before, legal[j]));
                lemma_step_is_move(before, state.board(), sticks@, j);
                let old_path = path;
                path = path.push(state.board());
                assert forall|i: int| 0 <= i < path.len() - 1 implies !finished(
                    #[trigger] path[i],
                ) && is_move_of(path[i], path[i + 1]) by {
                    if i < old_path.len() - 1 {
                        assert(path[i] == old_path[i] && path[i + 1] == old_path[i + 1]);
                    } else {
                        assert(path[i] == before);
                    }
                }
            }
            moves = moves + 1;
        }
        let r = match Self::leaf(&state, first) {
            Some(v) => v,
            None => 0,
        };
        assert(is_playout(path));
        assert(r == playout_score(path, start.2));
        r
    }
}

} // verus!
