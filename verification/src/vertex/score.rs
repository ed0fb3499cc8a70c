//! Binary floating-point scores with a 24-bit significand.
//!
//! A score is held as an integer that counts multiples of 2^-33. Every operation on scores
//! rounds its exact result to the nearest number of at most 24 significant bits, ties to
//! even, so that scores are added and compared exactly as single-precision floating-point
//! numbers are: in the range in use here single precision neither overflows nor loses a bit
//! to underflow.

use vstd::arithmetic::div_mod::*;
use vstd::arithmetic::power2::*;
use vstd::prelude::*;

verus! {

/// The number of distinct significands, 2^24.
pub const SIGNIFICANDS: u64 = 16777216;

/// The score 1, in multiples of 2^-33.
pub const ONE: u64 = 8589934592;

/// No triangle score leaves the range from `-SCORE_MAX` to `SCORE_MAX`: at 2^60 a single
/// adjustment is too small to move the rounded sum any further.
pub const SCORE_MAX: i64 = 1152921504606846976;

/// The spacing of the numbers of 24 significant bits around `num / den`: the smallest of
/// `from`, `2 * from`, `4 * from`, ... under which `num / den` has at most 24 bits.
pub open spec fn spacing(num: nat, den: nat, from: nat) -> nat
    decreases
        (if num >= SIGNIFICANDS * from * den {
            num - SIGNIFICANDS * from * den + 1
        } else {
            0
        }),
{
    if num < SIGNIFICANDS * from * den || from * den == 0 {
        from
    } else {
        proof {
            assert(SIGNIFICANDS * (2 * from) * den == 2 * (SIGNIFICANDS * from * den))
                by (nonlinear_arith);
            assert(SIGNIFICANDS * from * den == SIGNIFICANDS * (from * den)) by (nonlinear_arith);
        }
        spacing(num, den, 2 * from)
    }
}

/// The number of 24 significant bits nearest to `num / den`, ties to the even significand.
pub open spec fn nearest_ratio(num: nat, den: nat) -> nat {
    let unit = spacing(num, den, 1);
    let q = num / (unit * den);
    let r = num % (unit * den);
    if 2 * r < unit * den || (2 * r == unit * den && q % 2 == 0) {
        q * unit
    } else {
        (q + 1) * unit
    }
}

/// The number of 24 significant bits nearest to the integer `x`, ties to even.
pub open spec fn nearest(x: int) -> int {
    if x >= 0 {
        nearest_ratio(x as nat, 1) as int
    } else {
        -(nearest_ratio((-x) as nat, 1) as int)
    }
}

/// `x` has at most 24 significant bits.
pub open spec fn representable(x: int) -> bool {
    exists|m: int, k: nat| #[trigger] is_scaled(x, m, k)
}

/// `x` is the significand `m` scaled by 2^k.
pub open spec fn is_scaled(x: int, m: int, k: nat) -> bool {
    -SIGNIFICANDS <= m <= SIGNIFICANDS && x == m * pow2(k)
}

proof fn lemma_spacing(num: nat, den: nat, j: nat) -> (k: nat)
    requires
        den > 0,
    ensures
        j <= k,
        spacing(num, den, pow2(j)) == pow2(k),
        num < SIGNIFICANDS * pow2(k) * den,
        k > j ==> num >= SIGNIFICANDS * pow2((k - 1) as nat) * den,
    decreases
        (if num >= SIGNIFICANDS * pow2(j) * den {
            num - SIGNIFICANDS * pow2(j) * den + 1
        } else {
            0
        }),
{
    lemma_pow2_pos(j);
    lemma_pow2_unfold(j + 1);
    assert(pow2(j) * den > 0) by (nonlinear_arith)
        requires
            pow2(j) > 0,
            den > 0,
    ;
    if num < SIGNIFICANDS * pow2(j) * den {
        j
    } else {
        assert(SIGNIFICANDS * (2 * pow2(j)) * den == 2 * (SIGNIFICANDS * pow2(j) * den))
            by (nonlinear_arith);
        assert(SIGNIFICANDS * pow2(j) * den == SIGNIFICANDS * (pow2(j) * den)) by (nonlinear_arith);
        lemma_spacing(num, den, j + 1)
    }
}

/// The two numbers of 24 significant bits around `num / den` leave no other between them: a
/// representable `y` lies at or below the lower one, or at or above the upper one.
proof fn lemma_bracket(num: nat, den: nat, y: nat)
    requires
        den > 0,
        representable(y as int),
    ensures
        ({
            let unit = spacing(num, den, 1);
            let q = num / (unit * den);
            let r = num % (unit * den);
            &&& unit > 0
            &&& unit * den > 0
            &&& y * den <= num ==> y <= q * unit
            &&& y * den >= num ==> y >= (if r == 0 {
                q * unit
            } else {
                (q + 1) * unit
            })
        }),
{
    lemma2_to64();
    let k = lemma_spacing(num, den, 0);
    let unit = pow2(k);
    lemma_pow2_pos(k);
    let step = unit * den;
    assert(step > 0) by (nonlinear_arith)
        requires
            unit > 0,
            den > 0,
            step == unit * den,
    ;
    let q = num / step;
    let r = num % step;
    lemma_fundamental_div_mod(num as int, step as int);
    let (m, i) = choose|m: int, i: nat| #[trigger] is_scaled(y as int, m, i);
    lemma_pow2_pos(i);
    assert(m >= 0) by (nonlinear_arith)
        requires
            y == m * pow2(i),
            pow2(i) > 0,
            y >= 0,
    ;
    if i >= k {
        lemma_pow2_adds(k, (i - k) as nat);
        lemma_pow2_pos((i - k) as nat);
        let c = m * pow2((i - k) as nat);
        assert(y == c * unit && y * den == c * step) by (nonlinear_arith)
            requires
                y == m * pow2(i),
                pow2(i) == unit * pow2((i - k) as nat),
                c == m * pow2((i - k) as nat),
                step == unit * den,
        ;
        lemma_multiple_order(num as int, step as int, q as int, r as int, c, unit as int);
    } else {
        let half = pow2((k - 1) as nat);
        lemma_pow2_unfold(k);
        lemma_pow2_monotone(i, (k - 1) as nat);
        let c: int = 8388608;
        assert(y <= c * unit && c * step <= num && y * den <= c * step) by (nonlinear_arith)
            requires
                y == m * pow2(i),
                0 <= m <= 16777216,
                0 < pow2(i) <= half,
                unit == 2 * half,
                c == 8388608,
                step == unit * den,
                den > 0,
                num >= 16777216 * half * den,
        ;
        lemma_multiple_order(num as int, step as int, q as int, r as int, c, unit as int);
        if y * den >= num {
            assert(y == c * unit) by (nonlinear_arith)
                requires
                    y * den == c * step,
                    step == unit * den,
                    den > 0,
            ;
        }
    }
}

proof fn lemma_multiple_order(num: int, step: int, q: int, r: int, c: int, unit: int)
    requires
        step > 0,
        unit > 0,
        num == step * q + r,
        0 <= r < step,
    ensures
        c * step <= num ==> c * unit <= q * unit,
        c * step >= num ==> c * unit >= (if r == 0 {
            q * unit
        } else {
            (q + 1) * unit
        }),
{
    if c * step <= num {
        assert(c <= q) by (nonlinear_arith)
            requires
                c * step <= step * q + r,
                0 <= r < step,
        ;
        assert(c * unit <= q * unit) by (nonlinear_arith)
            requires
                c <= q,
                unit > 0,
        ;
    }
    if c * step >= num {
        assert(c >= q && (r > 0 ==> c >= q + 1)) by (nonlinear_arith)
            requires
                c * step >= step * q + r,
                0 <= r < step,
        ;
        assert(c * unit >= q * unit && (r > 0 ==> c * unit >= (q + 1) * unit)) by (nonlinear_arith)
            requires
                c >= q,
                r > 0 ==> c >= q + 1,
                unit > 0,
        ;
    }
}

proof fn lemma_pow2_monotone(a: nat, b: nat)
    requires
        a <= b,
    ensures
        pow2(a) <= pow2(b),
{
    if a < b {
        lemma_pow2_strictly_increases(a, b);
    }
}

/// Rounding never passes a representable number: the nearest number to `num / den` stays on
/// the side of `y` on which `num / den` is.
pub proof fn lemma_nearest_ratio_keeps_side(num: nat, den: nat, y: nat)
    requires
        den > 0,
        representable(y as int),
    ensures
        num <= y * den ==> nearest_ratio(num, den) <= y,
        num >= y * den ==> nearest_ratio(num, den) >= y,
{
    lemma_bracket(num, den, y);
    let unit = spacing(num, den, 1);
    let q = num / (unit * den);
    assert((q + 1) * unit == q * unit + unit) by (nonlinear_arith);
}

/// Rounding is to nearest: no representable number is closer to `x` than `nearest(x)` is.
pub proof fn lemma_nearest_is_nearest(x: int, y: int)
    requires
        representable(y),
    ensures
        (if nearest(x) >= x {
            nearest(x) - x
        } else {
            x - nearest(x)
        }) <= (if y >= x {
            y - x
        } else {
            x - y
        }),
{
    let a: nat = if x >= 0 { x as nat } else { (-x) as nat };
    let b: int = if x >= 0 { y } else { -y };
    assert(representable(b)) by {
        let (m, k) = choose|m: int, k: nat| #[trigger] is_scaled(y, m, k);
        if x < 0 {
            assert(-y == (-m) * pow2(k)) by (nonlinear_arith)
                requires
                    y == m * pow2(k),
            ;
            assert(is_scaled(-y, -m, k));
        }
    }
    assert(is_scaled(0, 0, 0));
    lemma_bracket(a, 1, 0);
    let unit = spacing(a, 1, 1);
    let q = a / unit;
    let r = a % unit;
    lemma_fundamental_div_mod(a as int, unit as int);
    assert(unit * 1 == unit);
    assert((q + 1) * unit == q * unit + unit && unit * q == q * unit) by (nonlinear_arith);
    if b >= 0 {
        lemma_bracket(a, 1, b as nat);
    }
}

/// A number of at most 24 significant bits is not changed by rounding.
pub proof fn lemma_nearest_exact(x: int)
    requires
        representable(x),
    ensures
        nearest(x) == x,
{
    lemma_nearest_is_nearest(x, x);
}

/// What rounding gives has at most 24 significant bits.
pub proof fn lemma_nearest_representable(x: int)
    ensures
        representable(nearest(x)),
{
    let a: nat = if x >= 0 { x as nat } else { (-x) as nat };
    lemma2_to64();
    let k = lemma_spacing(a, 1, 0);
    let unit = pow2(k);
    lemma_pow2_pos(k);
    let q = a / unit;
    assert(unit * 1 == unit);
    lemma_fundamental_div_mod(a as int, unit as int);
    assert(q < SIGNIFICANDS) by (nonlinear_arith)
        requires
            unit * q <= a,
            a < SIGNIFICANDS * unit,
            unit > 0,
    ;
    let m: int = if nearest_ratio(a, 1) == q * unit { q as int } else { q as int + 1 };
    assert(nearest_ratio(a, 1) == m * unit);
    if x >= 0 {
        assert(is_scaled(nearest(x), m, k));
    } else {
        assert(-(m * unit) == (-m) * unit) by (nonlinear_arith);
        assert(is_scaled(nearest(x), -m, k));
    }
}

/// Rounding keeps order.
pub proof fn lemma_nearest_monotone(x: int, y: int)
    requires
        x <= y,
    ensures
        nearest(x) <= nearest(y),
{
    lemma_nearest_representable(x);
    lemma_nearest_representable(y);
    lemma_nearest_is_nearest(x, nearest(y));
    lemma_nearest_is_nearest(y, nearest(x));
}

/// Of two numbers of 24 significant bits that are equally near, rounding takes the one with the
/// even significand: it is a multiple of twice their distance.
pub proof fn lemma_nearest_ties_to_even(x: int, y: int)
    requires
        representable(y),
        y != nearest(x),
        y - x == x - nearest(x),
    ensures
        nearest(x) % (2 * (if y >= nearest(x) {
            y - nearest(x)
        } else {
            nearest(x) - y
        })) == 0,
{
    let a: nat = if x >= 0 { x as nat } else { (-x) as nat };
    let b: int = if x >= 0 { y } else { -y };
    assert(representable(b)) by {
        let (m, k) = choose|m: int, k: nat| #[trigger] is_scaled(y, m, k);
        if x < 0 {
            assert(-y == (-m) * pow2(k)) by (nonlinear_arith)
                requires
                    y == m * pow2(k),
            ;
            assert(is_scaled(-y, -m, k));
        }
    }
    assert(is_scaled(0, 0, 0));
    lemma_bracket(a, 1, 0);
    let unit = spacing(a, 1, 1);
    let q = a / unit;
    let r = a % unit;
    lemma_fundamental_div_mod(a as int, unit as int);
    assert(unit * 1 == unit);
    assert((q + 1) * unit == q * unit + unit && unit * q == q * unit) by (nonlinear_arith);
    let near = nearest_ratio(a, 1) as int;
    assert(b - a == a - near);
    assert(q >= 0 && q * unit >= 0) by (nonlinear_arith)
        requires
            q >= 0,
            unit > 0,
    ;
    assert(b >= 0);
    lemma_bracket(a, 1, b as nat);
    assert(2 * r == unit);
    let even: int = if q % 2 == 0 { q as int } else { q as int + 1 };
    let half = even / 2;
    assert(near == even * unit);
    assert(near == half * (2 * unit)) by (nonlinear_arith)
        requires
            near == even * unit,
            even == 2 * half,
    ;
    lemma_mod_multiples_basic(half, 2 * unit as int);
    assert(-near == (-half) * (2 * unit)) by (nonlinear_arith)
        requires
            near == half * (2 * unit),
    ;
    lemma_mod_multiples_basic(-half, 2 * unit as int);
}

/// A value within a representable bound is rounded to a value within that bound.
proof fn lemma_nearest_within(x: int, bound: nat)
    requires
        representable(bound as int),
        -bound <= x <= bound,
    ensures
        -bound <= nearest(x) <= bound,
{
    let a: nat = if x >= 0 { x as nat } else { (-x) as nat };
    lemma_nearest_ratio_keeps_side(a, 1, bound);
}

/// A number of up to `24 + k` bits is rounded by no more than half of `2^k`.
pub proof fn lemma_nearest_error(x: int, k: nat)
    requires
        -(SIGNIFICANDS * pow2(k)) <= x <= SIGNIFICANDS * pow2(k),
    ensures
        -pow2(k) <= 2 * (nearest(x) - x) <= pow2(k),
{
    let a: nat = if x >= 0 { x as nat } else { (-x) as nat };
    lemma2_to64();
    lemma_pow2_pos(k);
    let limit = SIGNIFICANDS * pow2(k);
    if a == limit {
        assert(is_scaled(limit, SIGNIFICANDS as int, k));
        lemma_nearest_ratio_keeps_side(a, 1, limit as nat);
    } else {
        let j = lemma_spacing(a, 1, 0);
        if j > k {
            lemma_pow2_monotone(k, (j - 1) as nat);
        } else {
            lemma_pow2_monotone(j, k);
        }
        let unit = pow2(j);
        lemma_pow2_pos(j);
        assert(unit * 1 == unit);
        lemma_fundamental_div_mod(a as int, unit as int);
        let q = a / unit;
        assert((q + 1) * unit == unit * q + unit && q * unit == unit * q) by (nonlinear_arith);
    }
}

/// Rounds `num / den` to the nearest number of 24 significant bits, ties to even.
pub fn round_ratio(num: u64, den: u64) -> (rounded: u64)
    requires
        num < 0x4000_0000_0000_0000,
        0 < den <= 0x1_0000,
    ensures
        rounded == nearest_ratio(num as nat, den as nat),
{
    let mut unit: u64 = 1;
    let mut step: u64 = den;
    while num >= SIGNIFICANDS * step
        invariant
            num < 0x4000_0000_0000_0000,
            0 < den <= 0x1_0000,
            unit > 0,
            step == unit * den,
            step <= 0x1_0000 || SIGNIFICANDS * step <= 2 * num,
            spacing(num as nat, den as nat, unit as nat) == spacing(num as nat, den as nat, 1),
        decreases num - step,
    {
        assert(SIGNIFICANDS * unit * den == SIGNIFICANDS * step) by (nonlinear_arith)
            requires
                step == unit * den,
        ;
        assert(unit <= step && 2 * step == (2 * unit) * den && step > 0) by (nonlinear_arith)
            requires
                step == unit * den,
                den > 0,
                unit > 0,
        ;
        unit = 2 * unit;
        step = 2 * step;
    }
    proof {
        assert(SIGNIFICANDS * unit * den == SIGNIFICANDS * step && step > 0 && unit <= step)
            by (nonlinear_arith)
            requires
                step == unit * den,
                den > 0,
                unit > 0,
        ;
        lemma_fundamental_div_mod(num as int, step as int);
    }
    let q: u64 = num / step;
    let r: u64 = num % step;
    assert(0 <= q * unit && (q + 1) * unit <= num + step) by (nonlinear_arith)
        requires
            step * q <= num,
            unit <= step,
            q >= 0,
            unit > 0,
    ;
    assert(q * unit <= (q + 1) * unit) by (nonlinear_arith)
        requires
            unit > 0,
    ;
    if 2 * r < step || (2 * r == step && q % 2 == 0) {
        q * unit
    } else {
        (q + 1) * unit
    }
}

/// Rounds `x` to the nearest number of 24 significant bits, ties to even.
pub fn round(x: i64) -> (rounded: i64)
    requires
        -0x4000_0000_0000_0000 < x < 0x4000_0000_0000_0000,
    ensures
        rounded == nearest(x as int),
        -0x4000_0000_0000_0000 <= rounded <= 0x4000_0000_0000_0000,
{
    proof {
        lemma2_to64_rest();
        assert(is_scaled(0x4000_0000_0000_0000, 1, 62));
        lemma_nearest_within(x as int, 0x4000_0000_0000_0000);
    }
    if x >= 0 {
        round_ratio(x as u64, 1) as i64
    } else {
        -(round_ratio((-x) as u64, 1) as i64)
    }
}

/// The score nearest to `m` thousandths.
pub open spec fn thousandths(m: nat) -> nat {
    nearest_ratio(m * ONE as nat, 1000)
}

/// Scores of up to a thousand thousandths lie between 0 and 1.
pub proof fn lemma_thousandths_bounds(m: nat)
    requires
        m <= 1000,
    ensures
        thousandths(m) <= ONE,
{
    lemma2_to64_rest();
    assert(is_scaled(ONE as int, 1, 33));
    lemma_nearest_ratio_keeps_side(m * ONE as nat, 1000, ONE as nat);
}

/// An entry of a table is the number of 24 significant bits nearest to its thousandths.
pub proof fn lemma_thousandths_are_nearest(m: nat, y: nat)
    requires
        representable(y as int),
    ensures
        representable(thousandths(m) as int),
        (if 1000 * thousandths(m) >= m * ONE {
            1000 * thousandths(m) - m * ONE
        } else {
            m * ONE - 1000 * thousandths(m)
        }) <= (if 1000 * y >= m * ONE {
            1000 * y - m * ONE
        } else {
            m * ONE - 1000 * y
        }),
{
    let num = m * ONE as nat;
    lemma2_to64();
    lemma_bracket(num, 1000, y);
    let k = lemma_spacing(num, 1000, 0);
    let unit = pow2(k);
    lemma_pow2_pos(k);
    let step = unit * 1000;
    let q = num / step;
    let r = num % step;
    lemma_fundamental_div_mod(num as int, step as int);
    assert(step * q == 1000 * (q * unit) && (q + 1) * unit == q * unit + unit) by (nonlinear_arith)
        requires
            step == unit * 1000,
    ;
    assert(q < SIGNIFICANDS) by (nonlinear_arith)
        requires
            step * q <= num,
            num < SIGNIFICANDS * unit * 1000,
            step == unit * 1000,
            unit > 0,
    ;
    let c: int = if thousandths(m) == q * unit { q as int } else { q as int + 1 };
    assert(thousandths(m) == c * unit);
    assert(is_scaled(thousandths(m) as int, c, k));
}

/// Positions of the cache that the greedy optimizer models.
pub const CACHE_SIZE_MAX: usize = 16;

/// Number of live triangles from which on the score of a vertex does not change any more.
pub const VALENCE_MAX: usize = 8;

/// Scores by cache position (entry 0: not in the cache) and by number of live triangles.
pub struct VertexScoreTable {
    pub cache: [i64; 17],
    pub live: [i64; 9],
}

/// The mathematical model of a [VertexScoreTable].
#[verifier::ext_equal]
pub struct ScoreTable {
    pub cache: Seq<int>,
    pub live: Seq<int>,
}

impl ScoreTable {
    /// No entry is negative or exceeds 1.
    pub open spec fn wf(self) -> bool {
        &&& self.cache.len() == 1 + CACHE_SIZE_MAX
        &&& self.live.len() == 1 + VALENCE_MAX
        &&& forall|i: int| 0 <= i < self.cache.len() ==> 0 <= #[trigger] self.cache[i] <= ONE
        &&& forall|i: int| 0 <= i < self.live.len() ==> 0 <= #[trigger] self.live[i] <= ONE
    }

    /// The table whose entries are given in thousandths, each rounded to the nearest score.
    pub open spec fn of_thousandths(cache: Seq<u32>, live: Seq<u32>) -> ScoreTable {
        ScoreTable {
            cache: Seq::new(cache.len(), |i: int| thousandths(cache[i] as nat) as int),
            live: Seq::new(live.len(), |i: int| thousandths(live[i] as nat) as int),
        }
    }

    /// The score of a vertex at position `position` of the cache (-1: not in the cache) with
    /// `live` live triangles.
    pub open spec fn score(self, position: int, live: int) -> int {
        nearest(
            self.cache[1 + position] + self.live[if live < VALENCE_MAX {
                live
            } else {
                VALENCE_MAX as int
            }],
        )
    }
}

impl View for VertexScoreTable {
    type V = ScoreTable;

    open spec fn view(&self) -> ScoreTable {
        ScoreTable {
            cache: Seq::new(17, |i: int| self.cache@[i] as int),
            live: Seq::new(9, |i: int| self.live@[i] as int),
        }
    }
}

impl VertexScoreTable {
    /// Builds a table from entries in thousandths.
    pub fn from_thousandths(cache: [u32; 17], live: [u32; 9]) -> (table: VertexScoreTable)
        requires
            forall|i: int| 0 <= i < 17 ==> #[trigger] cache@[i] <= 1000,
            forall|i: int| 0 <= i < 9 ==> #[trigger] live@[i] <= 1000,
        ensures
            table@.wf(),
            table@ == ScoreTable::of_thousandths(cache@, live@),
    {
        let mut table: VertexScoreTable = VertexScoreTable { cache: [0; 17], live: [0; 9] };
        let mut i: usize = 0;
        while i < 17
            invariant
                i <= 17,
                forall|j: int| 0 <= j < 17 ==> #[trigger] cache@[j] <= 1000,
                forall|j: int| 0 <= j < i ==> 0 <= #[trigger] table.cache@[j] <= ONE,
                forall|j: int|
                    0 <= j < i ==> #[trigger] table.cache@[j] == thousandths(cache@[j] as nat),
            decreases 17 - i,
        {
            table.cache[i] = score_from_thousandths(cache[i]);
            i += 1;
        }
        i = 0;
        while i < 9
            invariant
                i <= 9,
                forall|j: int| 0 <= j < 9 ==> #[trigger] live@[j] <= 1000,
                forall|j: int| 0 <= j < 17 ==> 0 <= #[trigger] table.cache@[j] <= ONE,
                forall|j: int|
                    0 <= j < 17 ==> #[trigger] table.cache@[j] == thousandths(cache@[j] as nat),
                forall|j: int| 0 <= j < i ==> 0 <= #[trigger] table.live@[j] <= ONE,
                forall|j: int|
                    0 <= j < i ==> #[trigger] table.live@[j] == thousandths(live@[j] as nat),
            decreases 9 - i,
        {
            table.live[i] = score_from_thousandths(live[i]);
            i += 1;
        }
        assert(table@ =~= ScoreTable::of_thousandths(cache@, live@));
        table
    }
}

/// The score nearest to `m` thousandths.
pub fn score_from_thousandths(m: u32) -> (score: i64)
    requires
        m <= 1000,
    ensures
        score == thousandths(m as nat),
        0 <= score <= ONE,
{
    proof {
        lemma_thousandths_bounds(m as nat);
    }
    round_ratio(m as u64 * ONE, 1000) as i64
}

/// The score of a vertex at position `cache_position` of the cache (-1: not in the cache)
/// that `live_triangles` triangles still wait for.
pub fn vertex_score(table: &VertexScoreTable, cache_position: i32, live_triangles: usize) -> (score:
    i64)
    requires
        table@.wf(),
        -1 <= cache_position < CACHE_SIZE_MAX,
    ensures
        score == table@.score(cache_position as int, live_triangles as int),
        0 <= score <= 2 * ONE,
{
    let live_triangles_clamped: usize = if live_triangles < VALENCE_MAX {
        live_triangles
    } else {
        VALENCE_MAX
    };
    proof {
        lemma_score_bounds(table@, cache_position as int, live_triangles as int);
        assert(table@.cache[1 + cache_position] == table.cache@[1 + cache_position]);
        assert(table@.live[live_triangles_clamped as int]
            == table.live@[live_triangles_clamped as int]);
    }
    round(table.cache[(1 + cache_position) as usize] + table.live[live_triangles_clamped])
}

/// Vertex scores lie between 0 and 2.
pub proof fn lemma_score_bounds(table: ScoreTable, position: int, live: int)
    requires
        table.wf(),
        -1 <= position < CACHE_SIZE_MAX,
        0 <= live,
    ensures
        0 <= table.score(position, live) <= 2 * ONE,
{
    let clamped: int = if live < VALENCE_MAX { live } else { VALENCE_MAX as int };
    let sum = table.cache[1 + position] + table.live[clamped];
    lemma2_to64_rest();
    assert(is_scaled(2 * ONE as int, 1, 34));
    lemma_nearest_within(sum, 2 * ONE as nat);
}

/// The difference of two vertex scores, rounded, is at most 2 either way.
pub proof fn lemma_difference_bounds(a: int, b: int)
    requires
        0 <= a <= 2 * ONE,
        0 <= b <= 2 * ONE,
    ensures
        -2 * ONE <= nearest(a - b) <= 2 * ONE,
{
    lemma2_to64_rest();
    assert(is_scaled(2 * ONE as int, 1, 34));
    lemma_nearest_within(a - b, 2 * ONE as nat);
}

/// An adjustment of at most 2 either way keeps a triangle score within its range.
pub proof fn lemma_adjusted_bounds(score: int, diff: int)
    requires
        -SCORE_MAX <= score <= SCORE_MAX,
        -2 * ONE <= diff <= 2 * ONE,
    ensures
        -SCORE_MAX <= nearest(score + diff) <= SCORE_MAX,
{
    let x = score + diff;
    let a: nat = if x >= 0 { x as nat } else { (-x) as nat };
    lemma2_to64();
    lemma2_to64_rest();
    assert(is_scaled(SCORE_MAX as int, 1, 60));
    if a <= SCORE_MAX {
        lemma_nearest_within(x, SCORE_MAX as nat);
    } else {
        let k = lemma_spacing(a, 1, 0);
        if k < 37 {
            lemma_pow2_monotone(k, 36);
        }
        if k > 37 {
            lemma_pow2_monotone(37, (k - 1) as nat);
        }
        assert(spacing(a, 1, 1) == 137438953472nat);
        let r = a - SCORE_MAX;
        lemma_fundamental_div_mod_converse(a as int, 137438953472, 8388608, r);
    }
}

} // verus!
