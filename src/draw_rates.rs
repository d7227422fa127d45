//! Draw probabilities without replacement, and the net delta of two event streams.
//!
//! Probabilities are exact: each is a `Ratio` of two natural numbers, and the
//! contracts state both numbers over the falling-factorial model below.
use vstd::prelude::*;
use crate::bignat::BigNat;

verus! {

/// A non-negative rational number `numer / denom` with a positive denominator.
pub struct Ratio {
    numer: BigNat,
    denom: BigNat,
}

impl Ratio {
    /// The numerator as a number.
    pub closed spec fn numer_value(&self) -> nat {
        self.numer.value()
    }

    /// The denominator as a number.
    pub closed spec fn denom_value(&self) -> nat {
        self.denom.value()
    }

    /// A well-formed ratio has a positive denominator.
    pub open spec fn wf(&self) -> bool {
        self.denom_value() > 0
    }

    /// The numerator.
    pub fn numer(&self) -> (r: &BigNat)
        ensures
            r.value() == self.numer_value(),
    {
        &self.numer
    }

    /// The denominator.
    pub fn denom(&self) -> (r: &BigNat)
        ensures
            r.value() == self.denom_value(),
    {
        &self.denom
    }

    /// The ratio `0 / 1`.
    pub fn zero() -> (r: Ratio)
        ensures
            r.wf(),
            r.numer_value() == 0,
            r.denom_value() == 1,
    {
        Ratio { numer: BigNat::zero(), denom: BigNat::from_u32(1) }
    }

    /// The ratio `v / 1`.
    pub fn whole(v: u32) -> (r: Ratio)
        ensures
            r.wf(),
            r.numer_value() == v,
            r.denom_value() == 1,
    {
        Ratio { numer: BigNat::from_u32(v), denom: BigNat::from_u32(1) }
    }
}

/// The falling factorial `a * (a - 1) * ... * (a - j + 1)`, a product of `j` factors.
pub open spec fn falling(a: int, j: nat) -> int
    decreases j,
{
    if j == 0 {
        1
    } else {
        falling(a, (j - 1) as nat) * (a - (j - 1))
    }
}

/// A pool of `n` cards holding `m` targets is one the probabilities are defined on.
pub open spec fn valid_pool(m: int, n: int) -> bool {
    0 < m <= n
}

/// The number of cards a turn removes: `k`, or the whole deck when it holds fewer.
pub open spec fn cards_taken(k: nat, n: nat) -> nat {
    if k <= n {
        k
    } else {
        n
    }
}

/// Denominator of the chance to draw at least one of `m` targets when `k` cards
/// are drawn from `n`: the ordered draws `n * (n - 1) * ...`, or 1 for an invalid pool.
pub open spec fn hit_denom(k: nat, m: int, n: int) -> int {
    if valid_pool(m, n) {
        falling(n, cards_taken(k, n as nat))
    } else {
        1
    }
}

/// Numerator of that chance: the ordered draws minus those that avoid every target,
/// `(n - m) * (n - m - 1) * ...`; so the chance is `1 - prod (n - m - i) / (n - i)`.
/// A pool with no targets, or with more targets than cards, gives 0.
pub open spec fn hit_numer(k: nat, m: int, n: int) -> int {
    if valid_pool(m, n) {
        falling(n, cards_taken(k, n as nat)) - falling(n - m, cards_taken(k, n as nat))
    } else {
        0
    }
}

/// The numerator `single_turn_sum` returns: scaled by 100 for a percentage.
pub open spec fn single_turn_numer(k: nat, m: int, n: int, percent: bool) -> int {
    if percent {
        100 * hit_numer(k, m, n)
    } else {
        hit_numer(k, m, n)
    }
}

proof fn lemma_falling_zero(a: int, j: nat)
    requires
        0 <= a < j,
    ensures
        falling(a, j) == 0,
    decreases j,
{
    let f = falling(a, (j - 1) as nat);
    if j - 1 > a {
        lemma_falling_zero(a, (j - 1) as nat);
    }
    assert(f * (a - (j - 1)) == 0) by (nonlinear_arith)
        requires
            f == 0 || a - (j - 1) == 0,
    ;
}

proof fn lemma_falling_nonneg(a: int, j: nat)
    requires
        0 <= a,
    ensures
        falling(a, j) >= 0,
    decreases j,
{
    if j > 0 {
        lemma_falling_nonneg(a, (j - 1) as nat);
        if j - 1 > a {
            lemma_falling_zero(a, j);
        } else {
            let f = falling(a, (j - 1) as nat);
            assert(f * (a - (j - 1)) >= 0) by (nonlinear_arith)
                requires
                    f >= 0,
                    a - (j - 1) >= 0,
            ;
        }
    }
}

proof fn lemma_falling_positive(a: int, j: nat)
    requires
        j <= a,
    ensures
        falling(a, j) > 0,
    decreases j,
{
    if j > 0 {
        lemma_falling_positive(a, (j - 1) as nat);
        let f = falling(a, (j - 1) as nat);
        assert(f * (a - (j - 1)) > 0) by (nonlinear_arith)
            requires
                f > 0,
                a - (j - 1) > 0,
        ;
    }
}

proof fn lemma_falling_monotone(b: int, a: int, j: nat)
    requires
        0 <= b <= a,
    ensures
        falling(b, j) <= falling(a, j),
    decreases j,
{
    if j > 0 {
        lemma_falling_monotone(b, a, (j - 1) as nat);
        lemma_falling_nonneg(b, j);
        lemma_falling_nonneg(a, j);
        if j - 1 > b {
            lemma_falling_zero(b, j);
        } else {
            let fb = falling(b, (j - 1) as nat);
            let fa = falling(a, (j - 1) as nat);
            lemma_falling_nonneg(b, (j - 1) as nat);
            assert(fb * (b - (j - 1)) <= fa * (a - (j - 1))) by (nonlinear_arith)
                requires
                    0 <= fb <= fa,
                    0 <= b - (j - 1) <= a - (j - 1),
            ;
        }
    }
}

/// The chance of a single turn lies in `[0, 1]`: `0 <= numer <= denom` and `denom > 0`.
pub proof fn lemma_hit_bounds(k: nat, m: int, n: int)
    ensures
        0 <= hit_numer(k, m, n) <= hit_denom(k, m, n),
        hit_denom(k, m, n) > 0,
{
    if valid_pool(m, n) {
        let j = cards_taken(k, n as nat);
        lemma_falling_positive(n, j);
        lemma_falling_nonneg(n - m, j);
        lemma_falling_monotone(n - m, n, j);
    }
}

/// `falling(a, j)` as a number, for `j <= a`.
fn falling_big(a: u32, j: u32) -> (r: BigNat)
    requires
        j <= a,
    ensures
        r.value() == falling(a as int, j as nat),
{
    let mut acc = BigNat::from_u32(1);
    let mut i: u32 = 0;
    while i < j
        invariant
            i <= j <= a,
            acc.value() == falling(a as int, i as nat),
        decreases j - i,
    {
        acc = acc.mul_u32(a - i);
        i = i + 1;
    }
    acc
}

/// The chance of drawing at least one of `num_target` target cards when
/// `drawn_per_turn` cards are drawn without replacement from `num_deck` cards,
/// as a fraction, or as a percentage when `percent` holds.
///
/// No targets, or more targets than cards, give 0. Drawing more cards than the
/// deck holds draws the whole deck.
pub fn single_turn_sum(drawn_per_turn: u32, num_target: u32, num_deck: u32, percent: bool) -> (r:
    Ratio)
    ensures
        r.wf(),
        r.numer_value() == single_turn_numer(
            drawn_per_turn as nat,
            num_target as int,
            num_deck as int,
            percent,
        ),
        r.denom_value() == hit_denom(drawn_per_turn as nat, num_target as int, num_deck as int),
{
    if num_target == 0 || num_target > num_deck {
        return Ratio::zero();
    }
    let taken: u32 = if drawn_per_turn <= num_deck { drawn_per_turn } else { num_deck };
    let all = falling_big(num_deck, taken);
    let rest: u32 = num_deck - num_target;
    let miss = if taken <= rest { falling_big(rest, taken) } else { BigNat::zero() };
    proof {
        if taken > rest {
            lemma_falling_zero(rest as int, taken as nat);
        }
        lemma_falling_monotone(rest as int, num_deck as int, taken as nat);
        lemma_hit_bounds(drawn_per_turn as nat, num_target as int, num_deck as int);
    }
    let hits = all.sub(&miss);
    let numer = if percent { hits.mul_u32(100) } else { hits };
    Ratio { numer, denom: all }
}

/// The number of turns it takes to draw through `n` cards, counted in groups of
/// `m`: `ceil(n / m)`, for `m > 0`.
pub open spec fn turns_through_deck(m: int, n: int) -> int {
    (n + m - 1) / m
}

/// How many turns' chances the deck rate multiplies: one fewer than the turns
/// through the deck, and none when that is at most one.
pub open spec fn deck_steps(m: int, n: int) -> nat {
    if m > 0 && turns_through_deck(m, n) > 1 {
        (turns_through_deck(m, n) - 1) as nat
    } else {
        0
    }
}

/// Numerator of the product of the first `j` turn chances, where turn `x` has
/// `m - x` targets among `n - x` cards.
pub open spec fn deck_numer(k: nat, m: int, n: int, j: nat) -> int
    decreases j,
{
    if j == 0 {
        1
    } else {
        deck_numer(k, m, n, (j - 1) as nat) * hit_numer(k, m - (j - 1), n - (j - 1))
    }
}

/// Denominator of that product.
pub open spec fn deck_denom(k: nat, m: int, n: int, j: nat) -> int
    decreases j,
{
    if j == 0 {
        1
    } else {
        deck_denom(k, m, n, (j - 1) as nat) * hit_denom(k, m - (j - 1), n - (j - 1))
    }
}

proof fn lemma_deck_numer_zero(k: nat, m: int, n: int, j: nat, x: nat)
    requires
        x < j,
        hit_numer(k, m - x, n - x) == 0,
    ensures
        deck_numer(k, m, n, j) == 0,
    decreases j,
{
    let prev = deck_numer(k, m, n, (j - 1) as nat);
    let h = hit_numer(k, m - (j - 1), n - (j - 1));
    if x < j - 1 {
        lemma_deck_numer_zero(k, m, n, (j - 1) as nat, x);
    }
    assert(prev * h == 0) by (nonlinear_arith)
        requires
            prev == 0 || h == 0,
    ;
}

/// Every partial product of turn chances lies in `[0, 1]`.
pub proof fn lemma_deck_bounds(k: nat, m: int, n: int, j: nat)
    ensures
        0 <= deck_numer(k, m, n, j) <= deck_denom(k, m, n, j),
        deck_denom(k, m, n, j) > 0,
    decreases j,
{
    if j > 0 {
        lemma_deck_bounds(k, m, n, (j - 1) as nat);
        lemma_hit_bounds(k, m - (j - 1), n - (j - 1));
        let a = deck_numer(k, m, n, (j - 1) as nat);
        let b = deck_denom(k, m, n, (j - 1) as nat);
        let c = hit_numer(k, m - (j - 1), n - (j - 1));
        let d = hit_denom(k, m - (j - 1), n - (j - 1));
        assert(0 <= a * c <= b * d && b * d > 0) by (nonlinear_arith)
            requires
                0 <= a <= b,
                b > 0,
                0 <= c <= d,
                d > 0,
        ;
    }
}

proof fn lemma_turns_bound(m: int, n: int)
    by (nonlinear_arith)
    requires
        0 < m,
        0 <= n <= m,
    ensures
        (n + m - 1) / m <= 1,
{
}

/// The deck rate, as a percentage: the product of the single-turn chances of
/// the turns through the deck but the last, where each turn has one target and
/// one card fewer than the turn before.
///
/// A deck with no targets gives 0; one drawn through in a single turn gives 100.
pub fn deck_draw_rate(drawn_per_turn: u32, num_target: u32, num_deck: u32) -> (r: Ratio)
    ensures
        r.wf(),
        num_target == 0 ==> r.numer_value() == 0,
        num_target > 0 ==> r.numer_value() * deck_denom(
            drawn_per_turn as nat,
            num_target as int,
            num_deck as int,
            deck_steps(num_target as int, num_deck as int),
        ) == 100 * deck_numer(
            drawn_per_turn as nat,
            num_target as int,
            num_deck as int,
            deck_steps(num_target as int, num_deck as int),
        ) * r.denom_value(),
{
    let ghost k = drawn_per_turn as nat;
    let ghost m = num_target as int;
    let ghost n = num_deck as int;
    if num_target == 0 {
        return Ratio::zero();
    }
    let turns: u64 = ((num_deck as u64) + (num_target as u64) - 1) / (num_target as u64);
    if turns <= 1 {
        return Ratio::whole(100);
    }
    let steps: u64 = turns - 1;
    if steps > num_target as u64 {
        proof {
            lemma_deck_numer_zero(k, m, n, deck_steps(m, n), num_target as nat);
        }
        return Ratio::zero();
    }
    proof {
        if n <= m {
            lemma_turns_bound(m, n);
        }
    }
    let count: u32 = steps as u32;
    let mut numer = BigNat::from_u32(1);
    let mut denom = BigNat::from_u32(1);
    let mut x: u32 = 0;
    while x < count
        invariant
            k == drawn_per_turn as nat,
            m == num_target as int,
            n == num_deck as int,
            count == deck_steps(m, n),
            x <= count <= num_target < num_deck,
            numer.value() == deck_numer(k, m, n, x as nat),
            denom.value() == deck_denom(k, m, n, x as nat),
        decreases count - x,
    {
        let turn = single_turn_sum(drawn_per_turn, num_target - x, num_deck - x, false);
        numer = numer.mul(turn.numer());
        denom = denom.mul(turn.denom());
        x = x + 1;

    }
    let numer = numer.mul_u32(100);
    proof {
        lemma_deck_bounds(k, m, n, count as nat);
        let a = deck_numer(k, m, n, count as nat);
        let b = deck_denom(k, m, n, count as nat);
        assert((a * 100) * b == 100 * a * b) by (nonlinear_arith);
    }
    Ratio { numer, denom }
}


/// The sum of a sequence of integers; the empty sequence sums to 0.
pub open spec fn seq_sum(s: Seq<i32>) -> int
    decreases s.len(),
{
    if s.len() == 0 {
        0
    } else {
        seq_sum(s.drop_last()) + s.last()
    }
}

/// Total gains minus total losses.
pub open spec fn net_delta(gains: Seq<i32>, losses: Seq<i32>) -> int {
    seq_sum(gains) - seq_sum(losses)
}

/// The sum of `v`, in a type wide enough for any vector of `i32`.
fn sum_wide(v: &Vec<i32>) -> (r: i128)
    ensures
        r == seq_sum(v@),
{
    let mut total: i128 = 0;
    let mut i: usize = 0;
    while i < v.len()
        invariant
            i <= v@.len(),
            total == seq_sum(v@.subrange(0, i as int)),
            -(i as int) * 0x8000_0000 <= total <= (i as int) * 0x8000_0000,
        decreases v@.len() - i,
    {
        proof {
            assert(v@.subrange(0, i + 1int).drop_last() =~= v@.subrange(0, i as int));
        }
        total = total + v[i] as i128;
        i = i + 1;
    }
    proof {
        assert(v@.subrange(0, v@.len() as int) =~= v@);
    }
    total
}

/// The net change over a battle: the shield gained minus the damage of the
/// enemy attacks.
pub fn armored_health_loss(shield_gains: &Vec<i32>, enemy_attacks: &Vec<i32>) -> (r: i32)
    requires
        i32::MIN <= net_delta(shield_gains@, enemy_attacks@) <= i32::MAX,
    ensures
        r == net_delta(shield_gains@, enemy_attacks@),
{
    let gained = sum_wide(shield_gains);
    let lost = sum_wide(enemy_attacks);
    (gained - lost) as i32
}

/// A pool without targets never yields one, whatever is drawn.
pub proof fn lemma_no_targets_never_hit(k: nat, n: nat)
    ensures
        single_turn_numer(k, 0, n as int, false) == 0,
{
}

/// Drawing no cards never yields a target.
pub proof fn lemma_no_draws_never_hit(m: nat, n: nat)
    requires
        m > 0,
    ensures
        single_turn_numer(0, m as int, n as int, false) == 0,
{
}

/// The single-turn chance does not fall as targets are added to a deck of
/// fixed size, while the targets still fit in the deck:
/// `hit(k, m1, n) <= hit(k, m2, n)` for `m1 <= m2 <= n`.
pub proof fn lemma_hit_monotone_in_targets(k: nat, m1: nat, m2: nat, n: nat)
    requires
        m1 <= m2 <= n,
    ensures
        hit_numer(k, m1 as int, n as int) * hit_denom(k, m2 as int, n as int) <= hit_numer(
            k,
            m2 as int,
            n as int,
        ) * hit_denom(k, m1 as int, n as int),
{
    lemma_hit_bounds(k, m1 as int, n as int);
    lemma_hit_bounds(k, m2 as int, n as int);
    let a = hit_numer(k, m1 as int, n as int);
    let b = hit_numer(k, m2 as int, n as int);
    let c = hit_denom(k, m1 as int, n as int);
    let d = hit_denom(k, m2 as int, n as int);
    if valid_pool(m1 as int, n as int) {
        let j = cards_taken(k, n);
        lemma_falling_monotone(n - m2, n - m1, j);
        assert(a * d <= b * c) by (nonlinear_arith)
            requires
                a <= b,
                c == d,
                d > 0,
        ;
    } else {
        assert(a * d <= b * c) by (nonlinear_arith)
            requires
                a == 0,
                b >= 0,
                c > 0,
        ;
    }
}

/// A percentage is the fraction times 100 exactly: the numerators differ by that
/// factor and the denominator does not depend on the scale.
pub proof fn lemma_percent_is_hundredfold(k: nat, m: nat, n: nat)
    ensures
        single_turn_numer(k, m as int, n as int, true) == 100 * single_turn_numer(
            k,
            m as int,
            n as int,
            false,
        ),
{
}

/// The net delta of short streams: nothing gives 0, one gain gives itself, one
/// loss gives its negation, and two gains and a loss give their signed sum.
pub proof fn lemma_net_delta_short_streams(a: i32, b: i32, a1: i32, a2: i32, b1: i32)
    ensures
        net_delta(seq![], seq![]) == 0,
        net_delta(seq![a], seq![]) == a,
        net_delta(seq![], seq![b]) == -b,
        net_delta(seq![a1, a2], seq![b1]) == a1 + a2 - b1,
{
    assert(seq![a].drop_last() =~= Seq::<i32>::empty());
    assert(seq![b].drop_last() =~= Seq::<i32>::empty());
    assert(seq![b1].drop_last() =~= Seq::<i32>::empty());
    assert(seq![a1, a2].drop_last() =~= seq![a1]);
    assert(seq![a1].drop_last() =~= Seq::<i32>::empty());
    assert(seq![a1].len() == 1 && seq![a1].last() == a1);
    assert(seq_sum(seq![a1]) == seq_sum(Seq::<i32>::empty()) + a1);
    assert(seq![a1, a2].last() == a2);
    assert(seq_sum(seq![a1, a2]) == a1 + a2);
}

} // verus!
