//! Deterministic board generator: a pyramid of peg obstacles with a row of
//! multiplier zones under the final row. Row `a` holds `3 + a` pegs, centered
//! by giving it a starting x of `-((3 + a - 1) * H) / 2`; only the gaps of the
//! final row carry zones. A zone's payout power grows quadratically with its
//! distance from the board's center slot, so edge zones pay far more than
//! center zones.

use vstd::prelude::*;

verus! {

/// Horizontal distance between adjacent pegs of a row.
pub const HORIZONTAL_SPACING: i64 = 50;

/// Vertical distance between rows.
pub const VERTICAL_SPACING: i64 = 35;

/// Vertical position of the first (narrowest) row.
pub const TOP_ROW_Y: i64 = 200;

/// Number of rows in the pyramid.
pub const ROW_COUNT: usize = 16;

/// Number of pegs in the first row; each later row holds one more.
pub const FIRST_ROW_PEGS: usize = 3;

/// Center slot index of the final row's zones: the power curve is measured as
/// distance from this slot.
pub const CENTER_SLOT: usize = 8;

/// A static physical obstacle with no gameplay attribute beyond its position.
#[derive(PartialEq, Eq, Structural, Clone, Copy)]
pub struct Peg {
    pub x: i64,
    pub y: i64,
}

/// A static scoring trigger: a ball touching it pays out `power` times the
/// payout base, once per ball.
#[derive(PartialEq, Eq, Structural, Clone, Copy)]
pub struct MultiplierBlock {
    pub x: i64,
    pub y: i64,
    pub power: u32,
}

/// The static board: produced once at startup, never mutated.
pub struct Board {
    pub pegs: Vec<Peg>,
    pub zones: Vec<MultiplierBlock>,
}

/// Payout power for a zone whose slot sits `x` slots from the board center:
/// the square of `7/10 * x`, rounded to the nearest integer.
pub open spec fn power_of(x: int) -> int {
    (49 * x * x + 50) / 100
}

/// Number of pegs in row `a`.
pub open spec fn row_width(a: int) -> int {
    3 + a
}

/// Vertical position of row `a`.
pub open spec fn row_y(a: int) -> int {
    200 - 35 * a
}

/// Starting x of row `a`, chosen so the row stays horizontally centered.
pub open spec fn row_start_x(a: int) -> int {
    -25 * (a + 2)
}

/// Position of peg `l` of row `a`.
pub open spec fn peg_at(a: int, l: int) -> Peg {
    Peg { x: (row_start_x(a) + 50 * l) as i64, y: row_y(a) as i64 }
}

/// Index of row `a`'s first peg in the flat peg list.
pub open spec fn row_index_start(a: int) -> int
    decreases a,
{
    if a <= 0 {
        0
    } else {
        row_index_start(a - 1) + row_width(a - 1)
    }
}

/// Distance of final-row zone `i` from the center slot.
pub open spec fn slot_of(i: int) -> int {
    if i <= 8 {
        8 - i
    } else {
        i - 8
    }
}

/// The `i`-th multiplier zone of the final row, left to right: it sits in the
/// gap after the row's `i`-th peg, and its power follows the U-shaped curve.
pub open spec fn zone_at(i: int) -> MultiplierBlock {
    MultiplierBlock { x: (-400 + 50 * i) as i64, y: (-345) as i64, power: power_of(slot_of(i)) as u32 }
}

/// Number of pegs in the whole pyramid.
pub open spec fn total_pegs() -> int {
    row_index_start(16)
}

/// Number of zones under the final row: one per gap between adjacent pegs,
/// except the last gap.
pub open spec fn zone_count() -> int {
    row_width(15) - 1
}

/// Flat peg indices never run backwards.
pub proof fn lemma_row_index_nonneg(a: int)
    ensures
        row_index_start(a) >= 0,
    decreases a,
{
    if a > 0 {
        lemma_row_index_nonneg(a - 1);
    }
}

/// A whole earlier row fits below a later row's starting index.
pub proof fn lemma_row_index_bound(r: int, a: int)
    requires
        0 <= r < a,
    ensures
        row_index_start(r) >= 0,
        row_index_start(r) + row_width(r) <= row_index_start(a),
    decreases a,
{
    lemma_row_index_nonneg(r);
    if r < a - 1 {
        lemma_row_index_bound(r, a - 1);
    }
}

/// Payout power for a slot `x` slots away from the board center.
pub fn zone_power(x: u64) -> (p: u64)
    requires
        x <= 1000000,
    ensures
        p == power_of(x as int),
{
    proof {
        assert(49 * x * x <= 49000000000000) by (nonlinear_arith)
            requires
                x <= 1000000,
        ;
    }
    (49 * x * x + 50) / 100
}

/// Build the pyramid: 16 rows of pegs, and the 17 multiplier zones of the
/// final row. Runs once, before the simulation loop; fully deterministic.
pub fn create_pyramid() -> (b: Board)
    ensures
        b.pegs@.len() == total_pegs(),
        forall|a: int, l: int|
            0 <= a < 16 && 0 <= l < row_width(a) ==> b.pegs@[row_index_start(a) + l] == peg_at(
                a,
                l,
            ),
        b.zones@.len() == zone_count(),
        forall|i: int| 0 <= i < zone_count() ==> b.zones@[i] == zone_at(i),
{
    let mut pegs: Vec<Peg> = Vec::new();
    let mut a: usize = 0;
    while a < ROW_COUNT
        invariant
            a <= 16,
            pegs@.len() == row_index_start(a as int),
            forall|r: int, l: int|
                0 <= r < a && 0 <= l < row_width(r) ==> pegs@[row_index_start(r) + l] == peg_at(
                    r,
                    l,
                ),
        decreases 16 - a,
    {
        let width: usize = FIRST_ROW_PEGS + a;
        let start_x: i64 = -25 * (a as i64 + 2);
        let y: i64 = TOP_ROW_Y - VERTICAL_SPACING * (a as i64);
        let mut l: usize = 0;
        while l < width
            invariant
                a < 16,
                l <= width,
                width == row_width(a as int),
                start_x == row_start_x(a as int),
                y == row_y(a as int),
                pegs@.len() == row_index_start(a as int) + l,
                forall|r: int, k: int|
                    0 <= r < a && 0 <= k < row_width(r) ==> pegs@[row_index_start(r) + k]
                        == peg_at(r, k),
                forall|k: int|
                    0 <= k < l ==> pegs@[row_index_start(a as int) + k] == peg_at(a as int, k),
            decreases width - l,
        {
            let ghost pegs0 = pegs@;
            pegs.push(Peg { x: start_x + HORIZONTAL_SPACING * (l as i64), y });
            proof {
                assert forall|r: int, k: int| 0 <= r < a && 0 <= k < row_width(r) implies pegs@[
                    row_index_start(r) + k
                ] == peg_at(r, k) by {
                    lemma_row_index_bound(r, a as int);
                    assert(pegs0[row_index_start(r) + k] == peg_at(r, k));
                }
                lemma_row_index_nonneg(a as int);
                assert forall|k: int| 0 <= k < l implies pegs@[row_index_start(a as int) + k]
                    == peg_at(a as int, k) by {
                    assert(pegs0[row_index_start(a as int) + k] == peg_at(a as int, k));
                }
                assert(pegs@[row_index_start(a as int) + l] == peg_at(a as int, l as int));
            }
            l += 1;
        }
        proof {
            assert(row_index_start(a as int + 1) == row_index_start(a as int) + row_width(
                a as int,
            ));
        }
        a += 1;
    }
    let mut zones: Vec<MultiplierBlock> = Vec::new();
    let mut i: usize = 0;
    while i < 17
        invariant
            i <= 17,
            zones@.len() == i,
            forall|k: int| 0 <= k < i ==> zones@[k] == zone_at(k),
        decreases 17 - i,
    {
        let slot: u64 = if i <= CENTER_SLOT {
            (CENTER_SLOT - i) as u64
        } else {
            (i - CENTER_SLOT) as u64
        };
        let p = zone_power(slot);
        proof {
            lemma_power_monotone(slot_of(i as int), 8);
            assert(power_of(8) == 31);
        }
        zones.push(
            MultiplierBlock { x: -400 + HORIZONTAL_SPACING * (i as i64), y: -345, power: p as u32 },
        );
        i += 1;
    }
    proof {
        assert(zone_count() == 17);
    }
    Board { pegs, zones }
}

/// The power curve never falls as a slot moves away from the center.
pub proof fn lemma_power_monotone(s: int, t: int)
    requires
        0 <= s <= t,
    ensures
        power_of(s) <= power_of(t),
{
    assert(49 * s * s + 50 <= 49 * t * t + 50) by (nonlinear_arith)
        requires
            0 <= s <= t,
    ;
    vstd::arithmetic::div_mod::lemma_div_is_ordered(49 * s * s + 50, 49 * t * t + 50, 100);
}

/// Board symmetry: the final row's power sequence, read left to right, is a
/// palindrome, non-increasing up to the center slot and non-decreasing after
/// it — the U-shaped payout curve.
pub proof fn lemma_board_symmetry(b: Board)
    requires
        b.zones@.len() == zone_count(),
        forall|i: int| 0 <= i < zone_count() ==> b.zones@[i] == zone_at(i),
    ensures
        forall|i: int| 0 <= i < 17 ==> #[trigger] b.zones@[i].power == b.zones@[16 - i].power,
        forall|i: int, j: int| 0 <= i <= j <= 8 ==> b.zones@[i].power >= b.zones@[j].power,
        forall|i: int, j: int| 8 <= i <= j <= 16 ==> b.zones@[i].power <= b.zones@[j].power,
{
    assert forall|i: int| 0 <= i < 17 implies #[trigger] b.zones@[i].power == b.zones@[16
        - i].power by {
        assert(b.zones@[i] == zone_at(i));
        assert(b.zones@[16 - i] == zone_at(16 - i));
        assert(slot_of(i) == slot_of(16 - i));
    }
    assert forall|i: int, j: int| 0 <= i <= j <= 8 implies b.zones@[i].power
        >= b.zones@[j].power by {
        assert(b.zones@[i] == zone_at(i));
        assert(b.zones@[j] == zone_at(j));
        lemma_power_monotone(slot_of(j), slot_of(i));
        lemma_power_monotone(0, slot_of(j));
        lemma_power_monotone(slot_of(i), 8);
        assert(power_of(0) == 0);
        assert(power_of(8) == 31);
    }
    assert forall|i: int, j: int| 8 <= i <= j <= 16 implies b.zones@[i].power
        <= b.zones@[j].power by {
        assert(b.zones@[i] == zone_at(i));
        assert(b.zones@[j] == zone_at(j));
        lemma_power_monotone(slot_of(i), slot_of(j));
        lemma_power_monotone(0, slot_of(i));
        lemma_power_monotone(slot_of(j), 8);
        assert(power_of(0) == 0);
        assert(power_of(8) == 31);
    }
}

} // verus!
