use vstd::prelude::*;

verus! {

/// Fixed-point unit shared by scores, rewards, value estimates and the discount
/// factor: the real number `x` is held as the integer `x * SCORE_UNIT`.
pub const SCORE_UNIT: u64 = 1_000_000;

/// A score, reward or value estimate, in units of `1 / SCORE_UNIT`.
pub type Score = i64;

/// A discount factor in `(0, 1]` is held as an integer in `(0, SCORE_UNIT]`.
pub open spec fn valid_alpha(alpha: int) -> bool {
    0 < alpha <= SCORE_UNIT
}

/// `x * factor / SCORE_UNIT`, rounded toward zero.
pub open spec fn scaled(x: int, factor: int) -> int {
    let p = x * factor;
    if p >= 0 {
        p / (SCORE_UNIT as int)
    } else {
        -((-p) / (SCORE_UNIT as int))
    }
}

/// `alpha` to the power `depth` in fixed point, each step rounded down.
pub open spec fn discount(alpha: int, depth: nat) -> int
    decreases depth,
{
    if depth == 0 {
        SCORE_UNIT as int
    } else {
        discount(alpha, (depth - 1) as nat) * alpha / (SCORE_UNIT as int)
    }
}

/// Saturates a mathematical integer into the range of `Score`.
pub open spec fn clamp_score(x: int) -> int {
    if x < i64::MIN {
        i64::MIN as int
    } else if x > i64::MAX {
        i64::MAX as int
    } else {
        x
    }
}

/// The discounted reward of a step taken from a node at `depth`:
/// `reward * alpha^depth`.
pub open spec fn increment(reward: int, alpha: int, depth: nat) -> int {
    scaled(reward, discount(alpha, depth))
}

/// Frontier priority of a child of a node at `depth` whose stored basis is
/// `parent_basis`: `parent_basis + reward * alpha^depth + value * alpha^(depth + 1)`,
/// saturated into the range of `Score`.
pub open spec fn backed_up(parent_basis: int, reward: int, value: int, alpha: int, depth: nat) -> int {
    clamp_score(
        parent_basis + increment(reward, alpha, depth) + scaled(value, discount(alpha, depth + 1)),
    )
}

/// A discount factor of at most one keeps every power of it within `[0, 1]`.
pub proof fn lemma_discount_bounds(alpha: int, depth: nat)
    requires
        0 <= alpha <= SCORE_UNIT,
    ensures
        0 <= discount(alpha, depth) <= SCORE_UNIT,
    decreases depth,
{
    if depth > 0 {
        lemma_discount_bounds(alpha, (depth - 1) as nat);
        let d = discount(alpha, (depth - 1) as nat);
        assert(0 <= d * alpha / 1_000_000 <= 1_000_000) by (nonlinear_arith)
            requires
                0 <= d <= 1_000_000,
                0 <= alpha <= 1_000_000,
        ;
    }
}

/// Scaling by a factor within `[0, 1]` never moves a value away from zero.
pub proof fn lemma_scaled_bounds(x: int, factor: int)
    requires
        0 <= factor <= SCORE_UNIT,
    ensures
        x >= 0 ==> 0 <= scaled(x, factor) <= x,
        x < 0 ==> x <= scaled(x, factor) <= 0,
{
    if x >= 0 {
        assert(0 <= x * factor / 1_000_000 <= x) by (nonlinear_arith)
            requires
                0 <= x,
                0 <= factor <= 1_000_000,
        ;
    } else {
        assert(x * factor <= 0) by (nonlinear_arith)
            requires
                x < 0,
                0 <= factor,
        ;
        assert(0 <= (-(x * factor)) / 1_000_000 <= -x) by (nonlinear_arith)
            requires
                x < 0,
                0 <= factor <= 1_000_000,
        ;
    }
}

/// `alpha` to the power `depth`, in fixed point.
pub fn discount_factor(alpha: u64, depth: usize) -> (r: u64)
    requires
        alpha <= SCORE_UNIT,
    ensures
        r == discount(alpha as int, depth as nat),
        r <= SCORE_UNIT,
{
    let mut f: u64 = SCORE_UNIT;
    let mut i: usize = 0;
    while i < depth
        invariant
            i <= depth,
            alpha <= SCORE_UNIT,
            f == discount(alpha as int, i as nat),
            f <= SCORE_UNIT,
        decreases depth - i,
    {
        proof {
            lemma_discount_bounds(alpha as int, (i + 1) as nat);
        }
        assert(f * alpha <= 1_000_000_000_000) by (nonlinear_arith)
            requires
                f <= 1_000_000,
                alpha <= 1_000_000,
        ;
        f = f * alpha / SCORE_UNIT;
        i = i + 1;
    }
    f
}

/// `x * factor / SCORE_UNIT`, rounded toward zero.
pub fn discounted(x: Score, factor: u64) -> (r: Score)
    requires
        factor <= SCORE_UNIT,
    ensures
        r == scaled(x as int, factor as int),
{
    assert(-0x8000_0000_0000_0000_0000_0000_0000 <= x * factor <= 0x8000_0000_0000_0000_0000_0000_0000) by (nonlinear_arith)
        requires
            i64::MIN <= x <= i64::MAX,
            0 <= factor <= 1_000_000,
    ;
    let p: i128 = (x as i128) * (factor as i128);
    let unit: i128 = SCORE_UNIT as i128;
    let q: i128 = if p >= 0 {
        p / unit
    } else {
        -((-p) / unit)
    };
    proof {
        lemma_scaled_bounds(x as int, factor as int);
    }
    q as i64
}

/// The stored basis of a child reached with `reward` from a node at `depth`:
/// `reward * alpha^depth`.
pub fn child_score_basis(reward: Score, alpha: u64, depth: usize) -> (r: Score)
    requires
        valid_alpha(alpha as int),
    ensures
        r == increment(reward as int, alpha as int, depth as nat),
{
    discounted(reward, discount_factor(alpha, depth))
}

/// The frontier priority of a child reached with `reward` and valued at `value`,
/// from a node at `depth` whose stored basis is `parent_basis`.
pub fn backed_up_score(parent_basis: Score, reward: Score, value: Score, alpha: u64, depth: usize) -> (r: Score)
    requires
        valid_alpha(alpha as int),
    ensures
        r == backed_up(parent_basis as int, reward as int, value as int, alpha as int, depth as nat),
{
    let here = discount_factor(alpha, depth);
    assert(here * alpha <= 1_000_000_000_000) by (nonlinear_arith)
        requires
            here <= 1_000_000,
            alpha <= 1_000_000,
    ;
    let next = here * alpha / SCORE_UNIT;
    proof {
        lemma_discount_bounds(alpha as int, (depth + 1) as nat);
        assert(discount(alpha as int, (depth + 1) as nat) == discount(alpha as int, depth as nat) * alpha / (SCORE_UNIT as int));
    }
    let inc = discounted(reward, here);
    let future = discounted(value, next);
    let total: i128 = parent_basis as i128 + inc as i128 + future as i128;
    if total < i64::MIN as i128 {
        i64::MIN
    } else if total > i64::MAX as i128 {
        i64::MAX
    } else {
        total as i64
    }
}

} // verus!
