//! Cell predicates, integer line of sight and area shapes. Nothing here changes state.
use crate::state::{GameState, Tile, COORD_CAP, occupies, lemma_first_index, lemma_first_index_at, first_index, Entity};
use vstd::prelude::*;

verus! {

/// `Some(i)` as a mathematical index.
pub open spec fn opt_int(r: Option<usize>) -> Option<int> {
    match r {
        Some(i) => Some(i as int),
        None => None,
    }
}

pub open spec fn abs_spec(a: int) -> int {
    if a < 0 {
        -a
    } else {
        a
    }
}

/// Chebyshev (eight-direction) distance.
pub open spec fn cheb_spec(ax: int, ay: int, bx: int, by: int) -> int {
    let dx = abs_spec(ax - bx);
    let dy = abs_spec(ay - by);
    if dx >= dy {
        dx
    } else {
        dy
    }
}

pub open spec fn sign_spec(n: int) -> int {
    if n > 0 {
        1
    } else if n < 0 {
        -1
    } else {
        0
    }
}

/// Coordinates small enough for neighbour and distance arithmetic.
pub open spec fn coord_ok(v: int) -> bool {
    -COORD_CAP <= v <= COORD_CAP
}

/// Walls, wood and burning wood block movement and sight.
pub open spec fn blocks_spec(t: Tile) -> bool {
    t == Tile::Wall || t == Tile::Wood || t == Tile::WoodBurn
}

/// On the board and not blocking movement.
pub open spec fn walkable_spec(g: GameState, x: int, y: int) -> bool {
    g.inb(x, y) && !blocks_spec(g.tile(x, y))
}

/// A walkable cell with no alive entity of `s` on it.
pub open spec fn cell_free_s(g: GameState, s: Seq<Entity>, x: int, y: int) -> bool {
    walkable_spec(g, x, y) && first_index(s, occupies(x, y)) is None
}

/// A cell that sight cannot pass: off the board or a blocking tile.
pub open spec fn sight_blocked(g: GameState, x: int, y: int) -> bool {
    !g.inb(x, y) || blocks_spec(g.tile(x, y))
}

/// `round(a / n)` with halves rounded up, for `n > 0`.
pub open spec fn round_div(a: int, n: int) -> int {
    (2 * a + n) / (2 * n)
}

/// Cell number `i` of the `n`-step ray from `(x0, y0)` to `(x1, y1)`.
pub open spec fn ray_x(x0: int, x1: int, i: int, n: int) -> int {
    x0 + round_div((x1 - x0) * i, n)
}

/// Integer line of sight: no cell strictly between the two ends blocks sight.
pub open spec fn los_spec(g: GameState, x0: int, y0: int, x1: int, y1: int) -> bool {
    let n = cheb_spec(x0, y0, x1, y1);
    forall|i: int|
        1 <= i < n ==> !sight_blocked(g, #[trigger] ray_x(x0, x1, i, n), ray_x(y0, y1, i, n))
}

pub fn sign(n: i32) -> (r: i32)
    ensures
        r == sign_spec(n as int),
{
    if n > 0 {
        1
    } else if n < 0 {
        -1
    } else {
        0
    }
}

pub fn in_bounds(g: &GameState, x: i32, y: i32) -> (r: bool)
    ensures
        r == g.inb(x as int, y as int),
{
    x >= 0 && y >= 0 && x < g.w && y < g.h
}

/// Chebyshev distance.
pub fn cheb(ax: i32, ay: i32, bx: i32, by: i32) -> (r: i32)
    requires
        coord_ok(ax as int),
        coord_ok(ay as int),
        coord_ok(bx as int),
        coord_ok(by as int),
    ensures
        r == cheb_spec(ax as int, ay as int, bx as int, by as int),
{
    let dx = if ax >= bx {
        ax - bx
    } else {
        bx - ax
    };
    let dy = if ay >= by {
        ay - by
    } else {
        by - ay
    };
    if dx >= dy {
        dx
    } else {
        dy
    }
}

/// Index of the first alive entity on `(x, y)`.
pub fn ent_index_at(g: &GameState, x: i32, y: i32) -> (r: Option<usize>)
    ensures
        opt_int(r) == g.ent_at(x as int, y as int),
{
    proof {
        lemma_first_index(g.entities@, occupies(x as int, y as int));
    }
    let mut i: usize = 0;
    while i < g.entities.len()
        invariant
            i <= g.entities@.len(),
            forall|j: int| 0 <= j < i ==> !occupies(x as int, y as int)(#[trigger] g.entities@[j]),
        decreases g.entities@.len() - i,
    {
        let e = &g.entities[i];
        if e.hp > 0 && e.x == x && e.y == y {
            proof {
                lemma_first_index_at(g.entities@, occupies(x as int, y as int), i as int);
            }
            return Some(i);
        }
        i = i + 1;
    }
    None
}

/// Tile of an on-board cell.
fn tile_at(g: &GameState, x: i32, y: i32) -> (r: Tile)
    requires
        g.wf(),
        g.inb(x as int, y as int),
    ensures
        r == g.tile(x as int, y as int),
{
    g.tiles[y as usize][x as usize]
}

/// Blocks movement: stone wall, wood, or burning wood.
pub fn blocks_move(g: &GameState, x: i32, y: i32) -> (r: bool)
    requires
        g.wf(),
        g.inb(x as int, y as int),
    ensures
        r == blocks_spec(g.tile(x as int, y as int)),
{
    match tile_at(g, x, y) {
        Tile::Wall | Tile::Wood | Tile::WoodBurn => true,
        _ => false,
    }
}

/// Blocks sight: the same tiles that block movement.
pub fn blocks_sight(g: &GameState, x: i32, y: i32) -> (r: bool)
    requires
        g.wf(),
        g.inb(x as int, y as int),
    ensures
        r == blocks_spec(g.tile(x as int, y as int)),
{
    match tile_at(g, x, y) {
        Tile::Wall | Tile::Wood | Tile::WoodBurn => true,
        _ => false,
    }
}

/// On the board and not blocking movement.
pub fn walkable(g: &GameState, x: i32, y: i32) -> (r: bool)
    requires
        g.wf(),
    ensures
        r == walkable_spec(*g, x as int, y as int),
{
    in_bounds(g, x, y) && !blocks_move(g, x, y)
}

/// Cell `i` of the `n`-step ray, computed without overflow.
fn ray_coord(a0: i32, a1: i32, i: i32, n: i32) -> (r: i32)
    requires
        coord_ok(a0 as int),
        coord_ok(a1 as int),
        1 <= i <= n,
        abs_spec(a1 - a0) <= n,
    ensures
        r == ray_x(a0 as int, a1 as int, i as int, n as int),
        a0 <= a1 ==> a0 <= r <= a1,
        a1 <= a0 ==> a1 <= r <= a0,
{
    let d: i128 = (a1 as i128) - (a0 as i128);
    let ii: i128 = i as i128;
    proof {
        lemma_ray_bounds(a0 as int, a1 as int, i as int, n as int);
        assert(-0x1_0000_0000 <= d <= 0x1_0000_0000);
        assert(-0x1_0000_0000_0000_0000 <= d * ii <= 0x1_0000_0000_0000_0000) by (nonlinear_arith)
            requires
                -0x1_0000_0000 <= d <= 0x1_0000_0000,
                1 <= ii <= 0x1_0000_0000,
        ;
    }
    let num: i128 = 2 * (d * ii) + (n as i128);
    let den: i128 = 2 * (n as i128);
    let q: i128 = if num >= 0 {
        num / den
    } else {
        -((-num + den - 1) / den)
    };
    proof {
        lemma_floor_div(num as int, den as int);
        assert(q == round_div(d * i, n as int));
    }
    (a0 as i128 + q) as i32
}

proof fn lemma_floor_div(a: int, b: int)
    requires
        b > 0,
    ensures
        a < 0 ==> -((-a + b - 1) / b) == a / b,
{
    if a < 0 {
        let q = a / b;
        let r = a % b;
        assert(a == b * q + r && 0 <= r < b) by (nonlinear_arith)
            requires
                b > 0,
                q == a / b,
                r == a % b,
        ;
        assert((-a + b - 1) / b == -q) by (nonlinear_arith)
            requires
                a == b * q + r,
                0 <= r < b,
                b > 0,
        {
            assert(-a + b - 1 == b * (-q) + (b - 1 - r));
            vstd::arithmetic::div_mod::lemma_fundamental_div_mod_converse(-a + b - 1, b, -q, b - 1 - r);
        }
    }
}

proof fn lemma_ray_bounds(a0: int, a1: int, i: int, n: int)
    requires
        1 <= i <= n,
        abs_spec(a1 - a0) <= n,
    ensures
        a0 <= a1 ==> a0 <= ray_x(a0, a1, i, n) <= a1,
        a1 <= a0 ==> a1 <= ray_x(a0, a1, i, n) <= a0,
{
    let d = a1 - a0;
    let big_a = 2 * (d * i) + n;
    let m = 2 * n;
    let q = big_a / m;
    let r = big_a % m;
    vstd::arithmetic::div_mod::lemma_fundamental_div_mod(big_a, m);
    vstd::arithmetic::div_mod::lemma_mod_bound(big_a, m);
    assert(round_div(d * i, n) == q);
    if d >= 0 {
        assert(0 <= d * i <= d * n) by (nonlinear_arith)
            requires
                d >= 0,
                1 <= i <= n,
        ;
        assert(0 <= q <= d) by (nonlinear_arith)
            requires
                0 <= d * i <= d * n,
                big_a == 2 * (d * i) + n,
                big_a == m * q + r,
                0 <= r < m,
                m == 2 * n,
                n >= 1,
                d >= 0,
        ;
    } else {
        assert(d * n <= d * i <= 0) by (nonlinear_arith)
            requires
                d < 0,
                1 <= i <= n,
        ;
        assert(d <= q <= 0) by (nonlinear_arith)
            requires
                d * n <= d * i <= 0,
                big_a == 2 * (d * i) + n,
                big_a == m * q + r,
                0 <= r < m,
                m == 2 * n,
                n >= 1,
                d < 0,
        ;
    }
}

/// Integer line of sight from `(x0, y0)` to `(x1, y1)`: every cell strictly between
/// the ends (rounded from the straight line, halves up) is on the board and lets
/// sight through.
pub fn los(g: &GameState, x0: i32, y0: i32, x1: i32, y1: i32) -> (r: bool)
    requires
        g.wf(),
        coord_ok(x0 as int),
        coord_ok(y0 as int),
        coord_ok(x1 as int),
        coord_ok(y1 as int),
    ensures
        r == los_spec(*g, x0 as int, y0 as int, x1 as int, y1 as int),
{
    let n = cheb(x0, y0, x1, y1);
    let mut i: i32 = 1;
    while i < n
        invariant
            g.wf(),
            coord_ok(x0 as int),
            coord_ok(y0 as int),
            coord_ok(x1 as int),
            coord_ok(y1 as int),
            n == cheb_spec(x0 as int, y0 as int, x1 as int, y1 as int),
            1 <= i,
            forall|j: int|
                1 <= j < i ==> !sight_blocked(
                    *g,
                    #[trigger] ray_x(x0 as int, x1 as int, j, n as int),
                    ray_x(y0 as int, y1 as int, j, n as int),
                ),
        decreases n - i,
    {
        let x = ray_coord(x0, x1, i, n);
        let y = ray_coord(y0, y1, i, n);
        if !in_bounds(g, x, y) || blocks_sight(g, x, y) {
            return false;
        }
        i = i + 1;
    }
    true
}

/// Index of the first alive entity on the ray from `(x0, y0)` to `(x1, y1)`,
/// the start cell excluded and the end cell included.
pub open spec fn first_on_ray(g: GameState, x0: int, y0: int, x1: int, y1: int, r: Option<int>) -> bool {
    let n = cheb_spec(x0, y0, x1, y1);
    match r {
        Some(k) => exists|i: int|
            1 <= i <= n && g.ent_at(#[trigger] ray_x(x0, x1, i, n), ray_x(y0, y1, i, n)) == Some(k)
                && forall|j: int|
                1 <= j < i ==> g.ent_at(#[trigger] ray_x(x0, x1, j, n), ray_x(y0, y1, j, n)) is None,
        None => forall|i: int|
            1 <= i <= n ==> g.ent_at(#[trigger] ray_x(x0, x1, i, n), ray_x(y0, y1, i, n)) is None,
    }
}

/// The first unit on the ray (see `first_on_ray`).
pub open spec fn ray_hit(g: GameState, x0: int, y0: int, x1: int, y1: int) -> Option<int> {
    choose|r: Option<int>| first_on_ray(g, x0, y0, x1, y1, r)
}

/// `first_on_ray` names one unit at most.
pub proof fn lemma_ray_hit(g: GameState, x0: int, y0: int, x1: int, y1: int, r: Option<int>)
    requires
        first_on_ray(g, x0, y0, x1, y1, r),
    ensures
        ray_hit(g, x0, y0, x1, y1) == r,
{
    let q = ray_hit(g, x0, y0, x1, y1);
    assert(first_on_ray(g, x0, y0, x1, y1, q));
    let n = cheb_spec(x0, y0, x1, y1);
    match r {
        Some(k) => {
            let i = choose|i: int|
                1 <= i <= n && g.ent_at(#[trigger] ray_x(x0, x1, i, n), ray_x(y0, y1, i, n)) == Some(k)
                    && forall|j: int| 1 <= j < i ==> g.ent_at(#[trigger] ray_x(x0, x1, j, n), ray_x(y0, y1, j, n)) is None;
            match q {
                Some(k2) => {
                    let i2 = choose|i2: int|
                        1 <= i2 <= n && g.ent_at(#[trigger] ray_x(x0, x1, i2, n), ray_x(y0, y1, i2, n)) == Some(k2)
                            && forall|j: int| 1 <= j < i2 ==> g.ent_at(#[trigger] ray_x(x0, x1, j, n), ray_x(y0, y1, j, n)) is None;
                    if i < i2 {
                        assert(g.ent_at(ray_x(x0, x1, i, n), ray_x(y0, y1, i, n)) is None);
                    } else if i2 < i {
                        assert(g.ent_at(ray_x(x0, x1, i2, n), ray_x(y0, y1, i2, n)) is None);
                    }
                },
                None => {
                    assert(g.ent_at(ray_x(x0, x1, i, n), ray_x(y0, y1, i, n)) is None);
                },
            }
        },
        None => {
            match q {
                Some(k2) => {
                    let i2 = choose|i2: int|
                        1 <= i2 <= n && g.ent_at(#[trigger] ray_x(x0, x1, i2, n), ray_x(y0, y1, i2, n)) == Some(k2)
                            && forall|j: int| 1 <= j < i2 ==> g.ent_at(#[trigger] ray_x(x0, x1, j, n), ray_x(y0, y1, j, n)) is None;
                    assert(g.ent_at(ray_x(x0, x1, i2, n), ray_x(y0, y1, i2, n)) is None);
                },
                None => {},
            }
        },
    }
}

/// The first unit hit by a projectile from `(x0, y0)` towards `(x1, y1)`: bodies in
/// front shield the ones behind.
pub fn first_unit_on_ray(g: &GameState, x0: i32, y0: i32, x1: i32, y1: i32) -> (r: Option<usize>)
    requires
        g.wf(),
        coord_ok(x0 as int),
        coord_ok(y0 as int),
        coord_ok(x1 as int),
        coord_ok(y1 as int),
    ensures
        first_on_ray(*g, x0 as int, y0 as int, x1 as int, y1 as int, opt_int(r)),
        r matches Some(k) ==> k < g.entities@.len() && g.entities@[k as int].hp > 0,
{
    let n = cheb(x0, y0, x1, y1);
    let mut i: i32 = 1;
    while i <= n
        invariant
            g.wf(),
            coord_ok(x0 as int),
            coord_ok(y0 as int),
            coord_ok(x1 as int),
            coord_ok(y1 as int),
            n == cheb_spec(x0 as int, y0 as int, x1 as int, y1 as int),
            1 <= i <= n + 1,
            forall|j: int|
                1 <= j < i ==> g.ent_at(
                    #[trigger] ray_x(x0 as int, x1 as int, j, n as int),
                    ray_x(y0 as int, y1 as int, j, n as int),
                ) is None,
        decreases n + 1 - i,
    {
        let x = ray_coord(x0, x1, i, n);
        let y = ray_coord(y0, y1, i, n);
        match ent_index_at(g, x, y) {
            Some(k) => {
                proof {
                    lemma_first_index(g.entities@, occupies(x as int, y as int));
                }
                return Some(k);
            },
            None => {},
        }
        i = i + 1;
    }
    None
}

/// The on-board cells among `(cx + dx, cy + dy)` for the offsets `offs`, in order.
pub open spec fn cells_in_bounds(g: GameState, cx: int, cy: int, offs: Seq<(int, int)>) -> Seq<(i32, i32)>
    decreases offs.len(),
{
    if offs.len() == 0 {
        Seq::empty()
    } else {
        let rest = cells_in_bounds(g, cx, cy, offs.drop_last());
        let (dx, dy) = offs.last();
        if g.inb(cx + dx, cy + dy) {
            rest.push(((cx + dx) as i32, (cy + dy) as i32))
        } else {
            rest
        }
    }
}

/// The listed cells depend on the board's size only.
pub proof fn lemma_cells_same_dims(a: GameState, b: GameState, cx: int, cy: int, offs: Seq<(int, int)>)
    requires
        a.w == b.w,
        a.h == b.h,
    ensures
        cells_in_bounds(a, cx, cy, offs) == cells_in_bounds(b, cx, cy, offs),
    decreases offs.len(),
{
    if offs.len() > 0 {
        lemma_cells_same_dims(a, b, cx, cy, offs.drop_last());
    }
}

/// The 3x3 block around a cell, row by row.
pub open spec fn slam_offsets() -> Seq<(int, int)> {
    seq![(-1, -1), (0, -1), (1, -1), (-1, 0), (0, 0), (1, 0), (-1, 1), (0, 1), (1, 1)]
}

/// The plus shape: centre, up, down, left, right.
pub open spec fn heavy_offsets() -> Seq<(int, int)> {
    seq![(0, 0), (0, -1), (0, 1), (-1, 0), (1, 0)]
}

pub const SLAM_DX: [i32; 9] = [-1, 0, 1, -1, 0, 1, -1, 0, 1];

pub const SLAM_DY: [i32; 9] = [-1, -1, -1, 0, 0, 0, 1, 1, 1];

pub const HEAVY_DX: [i32; 5] = [0, 0, 0, -1, 1];

pub const HEAVY_DY: [i32; 5] = [0, -1, 1, 0, 0];

/// `v` is the on-board cell at one of the offsets around `(cx, cy)`.
pub open spec fn from_offset(g: GameState, cx: int, cy: int, offs: Seq<(int, int)>, v: (i32, i32)) -> bool {
    exists|j: int|
        #![trigger offs[j]]
        0 <= j < offs.len() && v == ((cx + offs[j].0) as i32, (cy + offs[j].1) as i32)
            && g.inb(cx + offs[j].0, cy + offs[j].1)
}

/// Every listed cell is on the board, and a cell at an offset is listed when on the board.
pub proof fn lemma_cells_in_bounds(g: GameState, cx: int, cy: int, offs: Seq<(int, int)>)
    ensures
        forall|k: int|
            0 <= k < cells_in_bounds(g, cx, cy, offs).len() ==> g.inb(
                (#[trigger] cells_in_bounds(g, cx, cy, offs)[k]).0 as int,
                cells_in_bounds(g, cx, cy, offs)[k].1 as int,
            ),
        forall|j: int|
            0 <= j < offs.len() && g.inb(cx + (#[trigger] offs[j]).0, cy + offs[j].1)
                && coord_ok(cx + offs[j].0) && coord_ok(cy + offs[j].1)
                ==> cells_in_bounds(g, cx, cy, offs).contains(((cx + offs[j].0) as i32, (cy + offs[j].1) as i32)),
        forall|k: int|
            0 <= k < cells_in_bounds(g, cx, cy, offs).len() ==> from_offset(
                g,
                cx,
                cy,
                offs,
                #[trigger] cells_in_bounds(g, cx, cy, offs)[k],
            ),
    decreases offs.len(),
{
    if offs.len() > 0 {
        lemma_cells_in_bounds(g, cx, cy, offs.drop_last());
        let rest = cells_in_bounds(g, cx, cy, offs.drop_last());
        let c = cells_in_bounds(g, cx, cy, offs);
        assert forall|k: int| 0 <= k < c.len() implies from_offset(g, cx, cy, offs, #[trigger] c[k]) by {
            if k < rest.len() {
                assert(c[k] == rest[k]);
                assert(from_offset(g, cx, cy, offs.drop_last(), rest[k]));
                let j = choose|j: int|
                    #![trigger offs.drop_last()[j]]
                    0 <= j < offs.len() - 1 && rest[k] == (
                        (cx + offs.drop_last()[j].0) as i32,
                        (cy + offs.drop_last()[j].1) as i32,
                    ) && g.inb(cx + offs.drop_last()[j].0, cy + offs.drop_last()[j].1);
                assert(offs.drop_last()[j] == offs[j]);
            } else {
                let j = offs.len() - 1;
                assert(c[k] == ((cx + offs[j].0) as i32, (cy + offs[j].1) as i32));
            }
        }
        assert forall|j: int|
            0 <= j < offs.len() && g.inb(cx + (#[trigger] offs[j]).0, cy + offs[j].1)
                && coord_ok(cx + offs[j].0) && coord_ok(cy + offs[j].1)
            implies c.contains(((cx + offs[j].0) as i32, (cy + offs[j].1) as i32)) by {
            if j < offs.len() - 1 {
                assert(offs.drop_last()[j] == offs[j]);
                let k = choose|k: int| 0 <= k < rest.len() && rest[k] == ((cx + offs[j].0) as i32, (cy + offs[j].1) as i32);
                assert(c[k] == rest[k]);
            } else {
                assert(c[c.len() - 1] == ((cx + offs[j].0) as i32, (cy + offs[j].1) as i32));
            }
        }
    }
}

/// Cells of `dxs`/`dys` around `(cx, cy)` that lie on the board.
fn area(g: &GameState, cx: i32, cy: i32, dxs: &[i32], dys: &[i32], Ghost(offs): Ghost<Seq<(int, int)>>) -> (r: Vec<(i32, i32)>)
    requires
        coord_ok(cx as int),
        coord_ok(cy as int),
        dxs@.len() == offs.len(),
        dys@.len() == offs.len(),
        forall|j: int| 0 <= j < offs.len() ==> (#[trigger] offs[j]) == (dxs@[j] as int, dys@[j] as int),
        forall|j: int| 0 <= j < offs.len() ==> -1 <= #[trigger] dxs@[j] <= 1 && -1 <= dys@[j] <= 1,
    ensures
        r@ == cells_in_bounds(*g, cx as int, cy as int, offs),
{
    let mut out: Vec<(i32, i32)> = Vec::new();
    let mut k: usize = 0;
    while k < dxs.len()
        invariant
            k <= offs.len(),
            dxs@.len() == offs.len(),
            dys@.len() == offs.len(),
            coord_ok(cx as int),
            coord_ok(cy as int),
            forall|j: int| 0 <= j < offs.len() ==> (#[trigger] offs[j]) == (dxs@[j] as int, dys@[j] as int),
            forall|j: int| 0 <= j < offs.len() ==> -1 <= #[trigger] dxs@[j] <= 1 && -1 <= dys@[j] <= 1,
            out@ == cells_in_bounds(*g, cx as int, cy as int, offs.take(k as int)),
        decreases dxs@.len() - k,
    {
        let x = cx + dxs[k];
        let y = cy + dys[k];
        proof {
            assert(offs.take(k as int + 1).drop_last() =~= offs.take(k as int));
            assert(offs.take(k as int + 1).last() == offs[k as int]);
        }
        if in_bounds(g, x, y) {
            out.push((x, y));
        }
        k = k + 1;
    }
    proof {
        assert(offs.take(k as int) =~= offs);
    }
    out
}

/// The golem's slam area: the on-board cells of the 3x3 block around `(cx, cy)`.
pub fn slam_area(g: &GameState, cx: i32, cy: i32) -> (r: Vec<(i32, i32)>)
    requires
        coord_ok(cx as int),
        coord_ok(cy as int),
    ensures
        r@ == cells_in_bounds(*g, cx as int, cy as int, slam_offsets()),
{
    let dxs: [i32; 9] = SLAM_DX;
    let dys: [i32; 9] = SLAM_DY;
    proof {
        assert(dxs@ =~= seq![-1i32, 0i32, 1i32, -1i32, 0i32, 1i32, -1i32, 0i32, 1i32]);
        assert(dys@ =~= seq![-1i32, -1i32, -1i32, 0i32, 0i32, 0i32, 1i32, 1i32, 1i32]);
    }
    area(g, cx, cy, dxs.as_slice(), dys.as_slice(), Ghost(slam_offsets()))
}

/// The blast area of the charged fire spell: the on-board cells of the plus shape
/// around `(cx, cy)` (centre, up, down, left, right).
pub fn heavy_area(g: &GameState, cx: i32, cy: i32) -> (r: Vec<(i32, i32)>)
    requires
        coord_ok(cx as int),
        coord_ok(cy as int),
    ensures
        r@ == cells_in_bounds(*g, cx as int, cy as int, heavy_offsets()),
{
    let dxs: [i32; 5] = HEAVY_DX;
    let dys: [i32; 5] = HEAVY_DY;
    proof {
        assert(dxs@ =~= seq![0i32, 0i32, 0i32, -1i32, 1i32]);
        assert(dys@ =~= seq![0i32, -1i32, 1i32, 0i32, 0i32]);
    }
    area(g, cx, cy, dxs.as_slice(), dys.as_slice(), Ghost(heavy_offsets()))
}

} // verus!
