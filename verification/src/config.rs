//! Tunable constants, the room maps, and the conversion from speed to time steps.
//!
//! Time runs in integer units of 1/6: a speed of {0.5, 1.0, 1.5, 2.0} is stored as
//! "half steps" {1, 2, 3, 4}, and one action costs `12 / speed_halves` units, which is
//! always a whole number. No floating point is involved anywhere.
use vstd::prelude::*;

verus! {

/// One unit of "real" time equals this many integer time units.
pub const TIME_UNIT: i64 = 6;

/// Speeds are stored as half steps: speed x 2.
pub const SPEED_HALVES_MIN: u8 = 1;

pub const SPEED_HALVES_MAX: u8 = 4;

/// Base speed 1.0 of every actor.
pub const SPEED_HALVES_BASE: u8 = 2;

/// Speed 1.5 while hasted.
pub const SPEED_HALVES_HASTE: u8 = 3;

pub const MAGE_HP: i32 = 14;

/// Number of hasted turns granted by the rune or the haste spell.
pub const HASTE_GRANT: u32 = 4;

pub const IMP_HP: i32 = 5;

pub const EYE_HP: i32 = 4;

pub const BOSS_HP: i32 = 24;

pub const IMP_DMG: i32 = 2;

pub const EYE_DMG: i32 = 2;

pub const EYE_RANGE: i32 = 4;

pub const BOSS_SLAM: i32 = 5;

pub const BOLT_RANGE: i32 = 3;

pub const BOLT_DMG: i32 = 3;

pub const HOOK_RANGE: i32 = 4;

pub const FIRE_RANGE: i32 = 4;

pub const FIRE_DMG: i32 = 3;

pub const HEAVY_RANGE: i32 = 4;

pub const HEAVY_DMG: i32 = 4;

pub const OIL_RANGE: i32 = 3;

/// Damage of being pushed into a wall or another unit.
pub const PUSH_CRASH: i32 = 2;

pub const SPIKE_DMG: i32 = 6;

/// Damage per tick of standing in (or being dropped into) fire.
pub const FIRE_DOT: i32 = 2;

/// Number of ticks a fire cell burns.
pub const FIRE_DUR: i32 = 2;

/// Ticks until a burning wooden wall collapses into a burning floor.
pub const WOOD_BURN_TICKS: i32 = 1;

pub const POTION_HEAL: i32 = 5;

pub const POTION_COUNT: u32 = 2;

/// Maximum number of picked (non-baseline) spells the mage carries.
pub const SPELL_CAP: usize = 3;

/// Number of rooms in one run; the last one holds the golem.
pub const ROOM_COUNT: usize = 6;

/// The room maps, rows separated by `'\n'`.
///
/// `#` wall, `W` wood, `~` oil, `s` spike, `H` haste rune, `@` mage, `o` imp, `e` rune eye,
/// `B` golem, `C` core; anything else is floor.
pub const ROOMS: [&'static str; 6] = [
    "#########\n#.......#\n#...o..e#\n#.......#\n#.@.....#\n#.......#\n#########",
    "##########\n#........#\n#..s..o..#\n#..s.....#\n#.@s..o..#\n#........#\n##########",
    "##########\n#........#\n#..~~~.e.#\n#..~~~...#\n#...o....#\n#........#\n#.@......#\n##########",
    "###########\n#....W....#\n#.o..W..e.#\n#....W....#\n#.~~...~~.#\n#.~~.@.~~.#\n#....H..o.#\n###########",
    "###########\n#.........#\n#.o.s.....#\n#.........#\n#..~~.~~..#\n#.......e.#\n#....@....#\n###########",
    "###########\n#.........#\n#....B....#\n#.........#\n#.s.....s.#\n#....@....#\n#...H.....#\n###########",
];

/// The speed (half steps) clamped into `[SPEED_HALVES_MIN, SPEED_HALVES_MAX]`.
pub open spec fn clamp_speed_spec(h: u8) -> u8 {
    if h < SPEED_HALVES_MIN {
        SPEED_HALVES_MIN
    } else if h > SPEED_HALVES_MAX {
        SPEED_HALVES_MAX
    } else {
        h
    }
}

/// Time units consumed by one action at speed `h` (half steps).
pub open spec fn time_step_spec(h: u8) -> i64 {
    (12int / (clamp_speed_spec(h) as int)) as i64
}

/// Clamps a speed to `[0.5, 2.0]` (`[1, 4]` half steps).
pub fn clamp_speed(speed_halves: u8) -> (r: u8)
    ensures
        r == clamp_speed_spec(speed_halves),
        SPEED_HALVES_MIN <= r <= SPEED_HALVES_MAX,
{
    if speed_halves < SPEED_HALVES_MIN {
        SPEED_HALVES_MIN
    } else if speed_halves > SPEED_HALVES_MAX {
        SPEED_HALVES_MAX
    } else {
        speed_halves
    }
}

/// Time added by one action: `TIME_UNIT * 2 / clamp_speed(speed_halves)`.
pub fn time_step(speed_halves: u8) -> (r: i64)
    ensures
        r == time_step_spec(speed_halves),
        r == 3 || r == 4 || r == 6 || r == 12,
        r * (clamp_speed_spec(speed_halves) as int) == 12,
{
    let h = clamp_speed(speed_halves);
    proof {
        lemma_time_step_cases(speed_halves);
    }
    (TIME_UNIT * 2) / (h as i64)
}

proof fn lemma_time_step_cases(h: u8)
    ensures
        clamp_speed_spec(h) == 1 ==> time_step_spec(h) == 12,
        clamp_speed_spec(h) == 2 ==> time_step_spec(h) == 6,
        clamp_speed_spec(h) == 3 ==> time_step_spec(h) == 4,
        clamp_speed_spec(h) == 4 ==> time_step_spec(h) == 3,
        1 <= clamp_speed_spec(h) <= 4,
{
}

/// Clamping is idempotent and always lands in the allowed range.
pub proof fn law_clamp_speed(h: u8)
    ensures
        SPEED_HALVES_MIN <= clamp_speed_spec(h) <= SPEED_HALVES_MAX,
        clamp_speed_spec(clamp_speed_spec(h)) == clamp_speed_spec(h),
        SPEED_HALVES_MIN <= h <= SPEED_HALVES_MAX ==> clamp_speed_spec(h) == h,
{
}

/// Every time step divides 12 exactly: time never becomes fractional, and a faster
/// speed never costs more time than a slower one.
pub proof fn law_time_step_exact(a: u8, b: u8)
    ensures
        time_step_spec(a) * (clamp_speed_spec(a) as int) == 12,
        clamp_speed_spec(a) <= clamp_speed_spec(b) ==> time_step_spec(b) <= time_step_spec(a),
{
    lemma_time_step_cases(a);
    lemma_time_step_cases(b);
}

} // verus!
