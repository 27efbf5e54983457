//! Checking at run time that a battle state may take its next `step`.
use crate::grid::coord_ok;
use crate::state::{
    ent_ok, first_index, grid_shape, lemma_first_index, lemma_first_index_at, mage_pred, Entity, GameState,
    Kind, Tile, COORD_CAP, ENT_CAP, HP_CAP,
};
use crate::{channel_ok, mage_on_board, path_ok, turn_ok, CHAIN_GUARD};
use vstd::prelude::*;

verus! {

/// Whether every row of `grid` has `w` cells and there are `h` rows.
fn shape_ok<T>(grid: &Vec<Vec<T>>, w: i32, h: i32) -> (r: bool)
    requires
        0 <= w,
        0 <= h,
    ensures
        r == grid_shape(grid@, w as int, h as int),
{
    if grid.len() != h as usize {
        return false;
    }
    let mut y: usize = 0;
    while y < grid.len()
        invariant
            0 <= w,
            0 <= h,
            y <= grid@.len(),
            grid@.len() == h,
            forall|k: int| 0 <= k < y ==> (#[trigger] grid@[k])@.len() == w,
        decreases grid@.len() - y,
    {
        if grid[y].len() != w as usize {
            return false;
        }
        y = y + 1;
    }
    true
}

/// Whether the board's size and grids are in order (see `grids_ok`).
fn board_ready(g: &GameState) -> (r: bool)
    ensures
        r == g.grids_ok(),
{
    if g.w < 0 || g.w > COORD_CAP || g.h < 0 || g.h > COORD_CAP {
        return false;
    }
    assert((g.w as i64) * (g.h as i64) <= 0x4000_0000 * 0x4000_0000) by (nonlinear_arith)
        requires
            0 <= g.w <= COORD_CAP,
            0 <= g.h <= COORD_CAP,
    ;
    if (g.w as i64) * (g.h as i64) > i32::MAX as i64 {
        return false;
    }
    if !shape_ok(&g.tiles, g.w, g.h) || !shape_ok(&g.fire, g.w, g.h) || !shape_ok(&g.burn_t, g.w, g.h) {
        return false;
    }
    let mut y: i32 = 0;
    while y < g.h
        invariant
            0 <= y <= g.h,
            0 <= g.w <= COORD_CAP,
            0 <= g.h <= COORD_CAP,
            grid_shape(g.tiles@, g.w as int, g.h as int),
            grid_shape(g.burn_t@, g.w as int, g.h as int),
            forall|xx: int, yy: int|
                0 <= yy < y && g.inb(xx, yy) && #[trigger] g.tile(xx, yy) == Tile::WoodBurn ==> g.burn_at(xx, yy)
                    > i32::MIN,
        decreases g.h - y,
    {
        let mut x: i32 = 0;
        while x < g.w
            invariant
                0 <= y < g.h,
                0 <= x <= g.w,
                0 <= g.w <= COORD_CAP,
                0 <= g.h <= COORD_CAP,
                grid_shape(g.tiles@, g.w as int, g.h as int),
                grid_shape(g.burn_t@, g.w as int, g.h as int),
                forall|xx: int, yy: int|
                    (0 <= yy < y || (yy == y && 0 <= xx < x)) && g.inb(xx, yy) && #[trigger] g.tile(xx, yy)
                        == Tile::WoodBurn ==> g.burn_at(xx, yy) > i32::MIN,
            decreases g.w - x,
        {
            if g.tiles[y as usize][x as usize] == Tile::WoodBurn && g.burn_t[y as usize][x as usize] == i32::MIN {
                proof {
                    assert(g.inb(x as int, y as int) && g.tile(x as int, y as int) == Tile::WoodBurn);
                }
                return false;
            }
            x = x + 1;
        }
        y = y + 1;
    }
    true
}

/// Whether an entity is within its bounds (see `ent_ok`).
fn entity_ready(e: &Entity) -> (r: bool)
    ensures
        r == ent_ok(*e),
{
    0 <= e.hp && e.hp <= HP_CAP && e.maxhp <= HP_CAP && -COORD_CAP <= e.x && e.x <= COORD_CAP && -COORD_CAP <= e.y
        && e.y <= COORD_CAP
}

/// Index of the first mage.
fn find_mage(g: &GameState) -> (r: Option<usize>)
    ensures
        match r {
            Some(i) => first_index(g.entities@, mage_pred()) == Some(i as int) && i < g.entities@.len(),
            None => first_index(g.entities@, mage_pred()) is None,
        },
{
    proof {
        lemma_first_index(g.entities@, mage_pred());
    }
    let mut i: usize = 0;
    while i < g.entities.len()
        invariant
            i <= g.entities@.len(),
            forall|j: int| 0 <= j < i ==> !mage_pred()(#[trigger] g.entities@[j]),
        decreases g.entities@.len() - i,
    {
        if g.entities[i].kind == Kind::Mage {
            proof {
                lemma_first_index_at(g.entities@, mage_pred(), i as int);
            }
            return Some(i);
        }
        i = i + 1;
    }
    None
}

/// Whether every cell of an auto-walk path is within coordinate bounds.
fn walk_ready(p: &Vec<(i32, i32)>) -> (r: bool)
    ensures
        r == forall|k: int| 0 <= k < p@.len() ==> coord_ok((#[trigger] p@[k]).0 as int) && coord_ok(p@[k].1 as int),
{
    let mut k: usize = 0;
    while k < p.len()
        invariant
            k <= p@.len(),
            forall|j: int| 0 <= j < k ==> coord_ok((#[trigger] p@[j]).0 as int) && coord_ok(p@[j].1 as int),
        decreases p@.len() - k,
    {
        let (x, y) = p[k];
        if x < -COORD_CAP || x > COORD_CAP || y < -COORD_CAP || y > COORD_CAP {
            return false;
        }
        k = k + 1;
    }
    true
}

/// Whether the battle state may take its next `step`: it is well formed with a mage on
/// the board (see `turn_ok`) and every clock leaves room for the step.
pub fn step_ready(g: &GameState) -> (r: bool)
    ensures
        r == (turn_ok(*g) && g.time_room(CHAIN_GUARD + 2)),
{
    if !board_ready(g) {
        return false;
    }
    if g.entities.len() > ENT_CAP {
        return false;
    }
    let mut i: usize = 0;
    while i < g.entities.len()
        invariant
            i <= g.entities@.len(),
            forall|j: int| 0 <= j < i ==> ent_ok(#[trigger] g.entities@[j]),
            forall|j: int|
                0 <= j < i ==> (#[trigger] g.entities@[j]).time <= i64::MAX - 12 * (CHAIN_GUARD + 2),
        decreases g.entities@.len() - i,
    {
        let e = &g.entities[i];
        if !entity_ready(e) {
            return false;
        }
        if e.time > i64::MAX - 12 * (CHAIN_GUARD as i64 + 2) {
            return false;
        }
        i = i + 1;
    }
    let mi = match find_mage(g) {
        Some(mi) => mi,
        None => {
            return false;
        },
    };
    let m = &g.entities[mi];
    let n = g.alive_enemies();
    proof {
        crate::state::lemma_count_bound(g.entities@);
    }
    if (m.haste_turns as u64) + (n as u64) > u32::MAX as u64 {
        return false;
    }
    if m.x < 0 || m.x >= g.w || m.y < 0 || m.y >= g.h {
        return false;
    }
    match &m.channel {
        Some(ch) => {
            if ch.tx < -COORD_CAP || ch.tx > COORD_CAP || ch.ty < -COORD_CAP || ch.ty > COORD_CAP {
                return false;
            }
        },
        None => {},
    }
    match &m.path {
        Some(p) => {
            if !walk_ready(p) {
                return false;
            }
        },
        None => {},
    }
    proof {
        assert(g.mage_index() == mi);
    }
    true
}

} // verus!
