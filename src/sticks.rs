//! Throws of four binary sticks, and their distribution.
use rand::rngs::StdRng;
use rand::RngCore;
use vstd::prelude::*;

verus! {

pub const NUM_STICKS: usize = 4;
/// All four sticks landing down: a move of five.
pub const SPECIAL_THROW: usize = NUM_STICKS + 1;
/// The number of equally likely ways four sticks can land.
pub const THROW_OUTCOMES: u64 = 16;

#[verifier::external_type_specification]
#[verifier::external_body]
pub struct ExStdRng(StdRng);

/// Relies on rand's `RngCore::next_u64` for `StdRng`: it hands out the next
/// word of the generator's stream. Nothing is promised of its value.
#[verifier::external_body]
pub(crate) fn next_word(rng: &mut StdRng) -> u64 {
    rng.next_u64()
}

/// A throw: the distance it lets a piece move.
#[derive(Debug, Clone, Copy, PartialEq, Eq, PartialOrd, Ord, Hash, Structural)]
pub struct Sticks(usize);

impl View for Sticks {
    type V = int;

    closed spec fn view(&self) -> int {
        self.0 as int
    }
}

/// The throw read from the number of sticks that landed up.
pub open spec fn throw_of_count(up: int) -> int {
    if up == 0 {
        SPECIAL_THROW as int
    } else {
        up
    }
}

/// How many of the draws are odd.
pub open spec fn odd_count(words: Seq<u64>) -> int
    decreases words.len(),
{
    if words.len() == 0 {
        0
    } else {
        odd_count(words.drop_last()) + (words.last() % 2) as int
    }
}

/// The number of ways to choose `k` of `n` sticks.
pub open spec fn binomial(n: nat, k: nat) -> nat
    decreases n,
{
    if k == 0 {
        1
    } else if n == 0 {
        0
    } else {
        binomial((n - 1) as nat, (k - 1) as nat) + binomial((n - 1) as nat, k)
    }
}

/// The throws in order of the number of sticks up, each with the number of
/// the `THROW_OUTCOMES` equally likely landings that give it.
pub open spec fn throw_table() -> Seq<(nat, int)> {
    Seq::new((NUM_STICKS + 1) as nat, |k: int| (binomial(NUM_STICKS as nat, k as nat), throw_of_count(k)))
}

pub open spec fn weight_sum(t: Seq<(nat, int)>) -> nat
    decreases t.len(),
{
    if t.len() == 0 {
        0
    } else {
        weight_sum(t.drop_last()) + t.last().0
    }
}

impl Sticks {
    /// The throw that moves a piece `x` cells.
    pub fn from(x: usize) -> (r: Sticks)
        ensures
            r@ == x,
    {
        Sticks(x)
    }

    /// The throw for `up` sticks landing up; none up counts as five.
    pub fn from_up_count(up: usize) -> (r: Sticks)
        requires
            up <= NUM_STICKS,
        ensures
            r@ == throw_of_count(up as int),
    {
        if up == 0 {
            Sticks(SPECIAL_THROW)
        } else {
            Sticks(up)
        }
    }

    /// The throw given by four draws, one for each stick: an odd draw is a
    /// stick that lands up.
    pub fn from_draws(words: [u64; NUM_STICKS]) -> (r: Sticks)
        ensures
            r@ == throw_of_count(odd_count(words@)),
            1 <= r@ <= SPECIAL_THROW,
    {
        let mut num: usize = 0;
        let mut i: usize = 0;
        while i < NUM_STICKS
            invariant
                i <= NUM_STICKS,
                words@.len() == NUM_STICKS,
                num == odd_count(words@.take(i as int)),
                num <= i,
            decreases NUM_STICKS - i,
        {
            assert(words@.take(i + 1).drop_last() =~= words@.take(i as int));
            num = num + (words[i] % 2) as usize;
            i = i + 1;
        }
        assert(words@.take(i as int) =~= words@);
        Sticks::from_up_count(num)
    }

    /// Throws the four sticks, each landing up or down with one draw of `rng`.
    pub fn throw(rng: &mut StdRng) -> (r: Sticks)
        ensures
            1 <= r@ <= SPECIAL_THROW,
    {
        let w0 = next_word(rng);
        let w1 = next_word(rng);
        let w2 = next_word(rng);
        let w3 = next_word(rng);
        Sticks::from_draws([w0, w1, w2, w3])
    }

    /// Every throw with its weight out of `THROW_OUTCOMES`.
    pub fn distribution() -> (r: Vec<(u64, Sticks)>)
        ensures
            r@.len() == throw_table().len(),
            forall|k: int|
                0 <= k < r@.len() ==> (#[trigger] r@[k]).0 == throw_table()[k].0 && r@[k].1@
                    == throw_table()[k].1,
    {
        let mut v: Vec<(u64, Sticks)> = Vec::new();
        let mut w: u64 = 1;
        let mut i: usize = 0;
        while i <= NUM_STICKS
            invariant
                i <= NUM_STICKS + 1,
                v@.len() == i,
                i <= NUM_STICKS ==> w == binomial(NUM_STICKS as nat, i as nat),
                forall|k: int|
                    0 <= k < i ==> (#[trigger] v@[k]).0 == throw_table()[k].0 && v@[k].1@
                        == throw_table()[k].1,
            decreases NUM_STICKS + 1 - i,
        {
            v.push((w, Sticks::from_up_count(i)));
            if i < NUM_STICKS {
                proof {
                    lemma_binomial_step(i as nat);
                    assert((w as int) * ((NUM_STICKS - i) as int) <= 24) by (nonlinear_arith)
                        requires
                            w <= 6,
                            0 <= (NUM_STICKS - i) as int <= 4,
                    ;
                }
                w = w * (NUM_STICKS - i) as u64 / (i + 1) as u64;
            }
            i = i + 1;
        }
        v
    }
}

/// Each step of the running binomial in `distribution` gives the next one.
proof fn lemma_binomial_step(i: nat)
    requires
        i < NUM_STICKS,
    ensures
        binomial(NUM_STICKS as nat, i) <= 6,
        (binomial(NUM_STICKS as nat, i) * (NUM_STICKS - i)) as int / (i + 1) as int == binomial(
            NUM_STICKS as nat,
            i + 1,
        ),
{
    reveal_with_fuel(binomial, 5);
    assert(binomial(4, 0) == 1);
    assert(binomial(4, 1) == 4);
    assert(binomial(4, 2) == 6);
    assert(binomial(4, 3) == 4);
    assert(binomial(4, 4) == 1);
    if i == 0 {
        assert((1 * 4) as int / 1 == 4);
    } else if i == 1 {
        assert((4 * 3) as int / 2 == 6);
    } else if i == 2 {
        assert((6 * 2) as int / 3 == 4);
    } else {
        assert(i == 3);
        assert((4 * 1) as int / 4 == 1);
    }
}

/// The weights of all throws add up to the number of equally likely
/// landings, so they form a probability distribution.
pub proof fn lemma_distribution_sums_to_one()
    ensures
        weight_sum(throw_table()) == THROW_OUTCOMES,
{
    reveal_with_fuel(binomial, 5);
    reveal_with_fuel(weight_sum, 6);
    let t = throw_table();
    assert(t.drop_last().drop_last().drop_last().drop_last().drop_last().len() == 0);
}

impl From<Sticks> for usize {
    fn from(s: Sticks) -> Self {
        s.0
    }
}

impl vstd::std_specs::convert::FromSpecImpl<Sticks> for usize {
    open spec fn obeys_from_spec() -> bool {
        true
    }

    open spec fn from_spec(v: Sticks) -> usize {
        v@ as usize
    }
}

} // verus!
