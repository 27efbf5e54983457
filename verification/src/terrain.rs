//! Fire, oil and wooden walls: a small cellular automaton.
//!
//! Burnable = oil + wood; fire spreads along burnables; stone is safe.
use crate::config::{FIRE_DOT, FIRE_DUR, WOOD_BURN_TICKS};
use crate::events::Event;
use crate::damage::{damage_ents, damage_events, damage_budget, deal_damage, lemma_damage_others, hit_entity, hp_after, StepCtx, TierTable};
use crate::grid::{cheb_spec, coord_ok, ent_index_at, in_bounds, opt_int};
use crate::movement::{lemma_ents_kinds, count_true, lemma_count_true, lemma_count_false, lemma_cell_index};
use crate::spells::Spell;
use crate::state::{
    first_index, is_alive, lemma_first_index, lemma_first_index_same, lemma_grids_same, mage_index_s, mage_pred,
    occupies, same_frame, Entity, GameState, Kind, Tile,
};
use vstd::multiset::Multiset;
use vstd::prelude::*;

verus! {

/// `a` starts with `b`.
pub open spec fn extends(a: Seq<Event>, b: Seq<Event>) -> bool {
    b.len() <= a.len() && a.subrange(0, b.len() as int) == b
}

/// Appending to a sequence that starts with `b` keeps it starting with `b`.
pub proof fn lemma_extends_append(mid: Seq<Event>, b: Seq<Event>, a: Seq<Event>)
    requires
        extends(mid, b),
        exists|x: Seq<Event>| a == mid + x,
    ensures
        extends(a, b),
{
    let x = choose|x: Seq<Event>| a == mid + x;
    assert(a.subrange(0, b.len() as int) =~= mid.subrange(0, b.len() as int));
}

pub proof fn lemma_extends_refl(a: Seq<Event>)
    ensures
        extends(a, a),
{
    assert(a.subrange(0, a.len() as int) =~= a);
}

/// A chain of king-adjacent on-board oil cells.
pub open spec fn oil_path(g: GameState, p: Seq<(int, int)>) -> bool {
    &&& p.len() >= 1
    &&& forall|i: int| 0 <= i < p.len() ==> g.inb((#[trigger] p[i]).0, p[i].1) && g.tile(p[i].0, p[i].1) == Tile::Oil
    &&& forall|i: int|
        0 < i < p.len() ==> cheb_spec(p[i - 1].0, p[i - 1].1, (#[trigger] p[i]).0, p[i].1) == 1
}

/// Cell `(x, y)` is joined to `(sx, sy)` through oil.
pub open spec fn oil_reach(g: GameState, sx: int, sy: int, x: int, y: int) -> bool {
    exists|p: Seq<(int, int)>| #[trigger] oil_path(g, p) && p[0] == (sx, sy) && p.last() == (x, y)
}

/// The fire grid of `b` is that of `a` with every cell joined to `(sx, sy)` through oil
/// set burning for `FIRE_DUR`.
pub open spec fn fire_after_ignite(a: GameState, b: GameState, sx: int, sy: int) -> bool {
    &&& b.fire@.len() == a.fire@.len()
    &&& forall|y: int| 0 <= y < a.h ==> (#[trigger] b.fire@[y])@.len() == a.fire@[y]@.len()
    &&& forall|x: int, y: int|
        a.inb(x, y) ==> #[trigger] b.fire_at(x, y) == if oil_reach(a, sx, sy, x, y) {
            FIRE_DUR
        } else {
            a.fire_at(x, y)
        }
}

/// Entities keep everything but hit points, haste and charging state; the mage keeps
/// its hit points and charge; nobody gains hit points.
pub open spec fn ents_burned(s: Seq<Entity>, t: Seq<Entity>) -> bool {
    &&& t.len() == s.len()
    &&& forall|i: int| 0 <= i < s.len() ==> same_frame(#[trigger] t[i], s[i]) && t[i].hp <= s[i].hp
    &&& forall|i: int|
        0 <= i < s.len() && s[i].kind == Kind::Mage ==> (#[trigger] t[i]).hp == s[i].hp && t[i].channel
            == s[i].channel
}

/// Entity `i` burns when the cells `lit` catch fire: it is not the mage, and it is the
/// first alive unit on its cell, which is lit.
pub open spec fn ignited(s: Seq<Entity>, lit: spec_fn(int, int) -> bool, i: int) -> bool {
    &&& s[i].kind != Kind::Mage
    &&& lit(s[i].x as int, s[i].y as int)
    &&& first_index(s, occupies(s[i].x as int, s[i].y as int)) == Some(i)
}

/// Number of entities among the first `n` that burn and die of it.
pub open spec fn ignite_kills(s: Seq<Entity>, lit: spec_fn(int, int) -> bool, n: int) -> int
    decreases n,
{
    if n <= 0 {
        0
    } else {
        ignite_kills(s, lit, n - 1) + if ignited(s, lit, n - 1) && crate::damage::is_kill(s[n - 1], FIRE_DOT) {
            1int
        } else {
            0
        }
    }
}

/// The haste bonus applies: a hasted mage, with haste at tier 2.
pub open spec fn ignite_bonus(s: Seq<Entity>, tiers: TierTable) -> bool {
    crate::state::has_mage_s(s) && tiers.tier_of(Spell::Haste) >= 2 && s[mage_index_s(s)].haste_turns > 0
}

/// Entities after the cells `lit` catch fire: each burning entity takes `FIRE_DOT`, and a
/// hasted mage with haste at tier 2 gains one hasted turn per kill.
pub open spec fn ignite_ents(s: Seq<Entity>, lit: spec_fn(int, int) -> bool, tiers: TierTable) -> Seq<Entity> {
    Seq::new(
        s.len(),
        |i: int|
            if ignited(s, lit, i) {
                hit_entity(s[i], FIRE_DOT)
            } else if ignite_bonus(s, tiers) && i == mage_index_s(s) {
                Entity { haste_turns: (s[i].haste_turns + ignite_kills(s, lit, s.len() as int)) as u32, ..s[i] }
            } else {
                s[i]
            },
    )
}

/// The events of the burning entities among the first `n`, as a bag (their order
/// follows the flood).
pub open spec fn ignite_events(s: Seq<Entity>, lit: spec_fn(int, int) -> bool, tiers: TierTable, n: int) -> Multiset<Event>
    decreases n,
{
    if n <= 0 {
        Multiset::empty()
    } else {
        ignite_events(s, lit, tiers, n - 1).add(
            if ignited(s, lit, n - 1) {
                damage_events(s, n - 1, FIRE_DOT, tiers).to_multiset()
            } else {
                Multiset::empty()
            },
        )
    }
}

proof fn lemma_bag_add(
    s: Seq<Entity>,
    l1: spec_fn(int, int) -> bool,
    l2: spec_fn(int, int) -> bool,
    tiers: TierTable,
    idx: int,
    n: int,
)
    requires
        0 <= n <= s.len(),
        0 <= idx < s.len(),
        !ignited(s, l1, idx),
        ignited(s, l2, idx),
        forall|j: int| 0 <= j < s.len() && j != idx ==> ignited(s, l2, j) == ignited(s, l1, j),
    ensures
        ignite_events(s, l2, tiers, n) == if idx < n {
            ignite_events(s, l1, tiers, n).add(damage_events(s, idx, FIRE_DOT, tiers).to_multiset())
        } else {
            ignite_events(s, l1, tiers, n)
        },
    decreases n,
{
    if n > 0 {
        lemma_bag_add(s, l1, l2, tiers, idx, n - 1);
        if idx < n - 1 {
            assert(ignite_events(s, l2, tiers, n) =~= ignite_events(s, l1, tiers, n).add(
                damage_events(s, idx, FIRE_DOT, tiers).to_multiset(),
            ));
        } else if idx == n - 1 {
            assert(ignite_events(s, l2, tiers, n) =~= ignite_events(s, l1, tiers, n).add(
                damage_events(s, idx, FIRE_DOT, tiers).to_multiset(),
            ));
        }
    }
}

proof fn lemma_bag_same(s: Seq<Entity>, l1: spec_fn(int, int) -> bool, l2: spec_fn(int, int) -> bool, tiers: TierTable, n: int)
    requires
        0 <= n <= s.len(),
        forall|j: int| 0 <= j < s.len() ==> ignited(s, l2, j) == ignited(s, l1, j),
    ensures
        ignite_events(s, l2, tiers, n) == ignite_events(s, l1, tiers, n),
    decreases n,
{
    if n > 0 {
        lemma_bag_same(s, l1, l2, tiers, n - 1);
    }
}

proof fn lemma_bag_empty(s: Seq<Entity>, lit: spec_fn(int, int) -> bool, tiers: TierTable, n: int)
    requires
        forall|x: int, y: int| !#[trigger] lit(x, y),
    ensures
        ignite_events(s, lit, tiers, n) == Multiset::<Event>::empty(),
    decreases n,
{
    if n > 0 {
        lemma_bag_empty(s, lit, tiers, n - 1);
        assert(ignite_events(s, lit, tiers, n) =~= Multiset::<Event>::empty());
    }
}

/// The board cells joined to `(sx, sy)` through oil.
pub open spec fn reach_set(g: GameState, sx: int, sy: int) -> spec_fn(int, int) -> bool {
    |x: int, y: int| g.inb(x, y) && oil_reach(g, sx, sy, x, y)
}

/// Only alive enemies burn, so the kills never outnumber them.
proof fn lemma_kills_le(s: Seq<Entity>, lit: spec_fn(int, int) -> bool, n: int)
    requires
        0 <= n <= s.len(),
    ensures
        0 <= ignite_kills(s, lit, n) <= crate::state::count_alive_enemies(s.take(n)),
    decreases n,
{
    if n > 0 {
        lemma_kills_le(s, lit, n - 1);
        assert(s.take(n).drop_last() == s.take(n - 1));
        assert(s.take(n).last() == s[n - 1]);
        if ignited(s, lit, n - 1) {
            lemma_first_index(s, occupies(s[n - 1].x as int, s[n - 1].y as int));
        }
    }
}

/// The kill count grows by one exactly for a new burning entity that dies.
proof fn lemma_kills_add(s: Seq<Entity>, l1: spec_fn(int, int) -> bool, l2: spec_fn(int, int) -> bool, idx: int, n: int)
    requires
        0 <= n <= s.len(),
        0 <= idx < s.len(),
        !ignited(s, l1, idx),
        ignited(s, l2, idx),
        forall|j: int| 0 <= j < s.len() && j != idx ==> ignited(s, l2, j) == ignited(s, l1, j),
    ensures
        ignite_kills(s, l2, n) == ignite_kills(s, l1, n) + if idx < n && crate::damage::is_kill(s[idx], FIRE_DOT) {
            1int
        } else {
            0
        },
    decreases n,
{
    if n > 0 {
        lemma_kills_add(s, l1, l2, idx, n - 1);
    }
}

proof fn lemma_kills_same(s: Seq<Entity>, l1: spec_fn(int, int) -> bool, l2: spec_fn(int, int) -> bool, n: int)
    requires
        0 <= n <= s.len(),
        forall|j: int| 0 <= j < s.len() ==> ignited(s, l2, j) == ignited(s, l1, j),
    ensures
        ignite_kills(s, l2, n) == ignite_kills(s, l1, n),
    decreases n,
{
    if n > 0 {
        lemma_kills_same(s, l1, l2, n - 1);
    }
}

/// Lighting one more cell `(cx, cy)`: when the first alive unit there is not the mage,
/// it takes the damage; otherwise nothing changes.
#[verifier::rlimit(80)]
proof fn lemma_ignite_step(
    s0: Seq<Entity>,
    cur: Seq<Entity>,
    l1: spec_fn(int, int) -> bool,
    l2: spec_fn(int, int) -> bool,
    cx: int,
    cy: int,
    tiers: TierTable,
)
    requires
        cur == ignite_ents(s0, l1, tiers),
        !l1(cx, cy),
        l2(cx, cy),
        forall|x: int, y: int| !(x == cx && y == cy) ==> #[trigger] l2(x, y) == l1(x, y),
        crate::state::has_mage_s(s0) || tiers.tier_of(Spell::Haste) < 2,
        crate::state::ents_ok(s0),
    ensures
        first_index(cur, occupies(cx, cy)) == first_index(s0, occupies(cx, cy)),
        match first_index(s0, occupies(cx, cy)) {
            Some(idx) => if s0[idx].kind != Kind::Mage {
                &&& crate::damage::damage_ents(cur, idx, FIRE_DOT, tiers) == ignite_ents(s0, l2, tiers)
                &&& damage_events(cur, idx, FIRE_DOT, tiers) == damage_events(s0, idx, FIRE_DOT, tiers)
                &&& ignite_events(s0, l2, tiers, s0.len() as int) == ignite_events(s0, l1, tiers, s0.len() as int).add(
                    damage_events(s0, idx, FIRE_DOT, tiers).to_multiset(),
                )
            } else {
                &&& cur == ignite_ents(s0, l2, tiers)
                &&& ignite_events(s0, l2, tiers, s0.len() as int) == ignite_events(s0, l1, tiers, s0.len() as int)
            },
            None => {
                &&& cur == ignite_ents(s0, l2, tiers)
                &&& ignite_events(s0, l2, tiers, s0.len() as int) == ignite_events(s0, l1, tiers, s0.len() as int)
            },
        },
{
    lemma_first_index(s0, crate::state::mage_pred());
    let p = occupies(cx, cy);
    assert forall|i: int| 0 <= i < s0.len() implies p(#[trigger] cur[i]) == p(s0[i]) by {
        if ignited(s0, l1, i) {
            assert(!(s0[i].x == cx && s0[i].y == cy));
        }
    }
    lemma_first_index_same(cur, s0, p);
    lemma_first_index(s0, p);
    let n = s0.len() as int;
    match first_index(s0, p) {
        Some(idx) => {
            if s0[idx].kind != Kind::Mage {
                assert(ignited(s0, l2, idx));
                assert(!ignited(s0, l1, idx));
                assert forall|j: int| 0 <= j < s0.len() && j != idx implies ignited(s0, l2, j) == ignited(s0, l1, j) by {
                    if s0[j].x == cx && s0[j].y == cy {
                        assert(!ignited(s0, l2, j));
                    }
                }
                lemma_kills_add(s0, l1, l2, idx, n);
                lemma_bag_add(s0, l1, l2, tiers, idx, n);
                lemma_first_index(cur, crate::state::mage_pred());
                crate::state::lemma_first_index_same(cur, s0, crate::state::mage_pred());
                assert(cur[idx] == s0[idx]);
                let t = crate::damage::damage_ents(cur, idx, FIRE_DOT, tiers);
                let e = ignite_ents(s0, l2, tiers);
                assert(t.len() == e.len());
                let mi = mage_index_s(s0);
                lemma_kills_le(s0, l1, n);
                lemma_kills_le(s0, l2, n);
                assert(s0.take(n) == s0);
                assert(mage_index_s(cur) == mi);
                assert(crate::state::has_mage_s(cur) == crate::state::has_mage_s(s0));
                if crate::state::has_mage_s(s0) {
                    assert(s0[mi].kind == Kind::Mage);
                    assert(idx != mi);
                    assert(!ignited(s0, l1, mi) && !ignited(s0, l2, mi));
                    assert(cur[mi].haste_turns > 0 <==> s0[mi].haste_turns > 0);
                }
                assert(crate::damage::kill_bonus(cur, idx, FIRE_DOT, tiers) == (crate::damage::is_kill(s0[idx], FIRE_DOT)
                    && ignite_bonus(s0, tiers)));
                assert forall|i: int| 0 <= i < t.len() implies t[i] == e[i] by {
                    if i == idx {
                    } else if crate::state::has_mage_s(s0) && i == mi {
                    } else {
                    }
                }
                assert(t =~= e);
            } else {
                assert forall|j: int| 0 <= j < s0.len() implies ignited(s0, l2, j) == ignited(s0, l1, j) by {
                    if s0[j].x == cx && s0[j].y == cy {
                        assert(!ignited(s0, l2, j));
                    }
                }
                lemma_kills_same(s0, l1, l2, n);
                lemma_bag_same(s0, l1, l2, tiers, n);
                assert(cur =~= ignite_ents(s0, l2, tiers));
            }
        },
        None => {
            assert forall|j: int| 0 <= j < s0.len() implies ignited(s0, l2, j) == ignited(s0, l1, j) by {
                if s0[j].x == cx && s0[j].y == cy {
                    assert(!ignited(s0, l2, j));
                }
            }
            lemma_kills_same(s0, l1, l2, n);
            lemma_bag_same(s0, l1, l2, tiers, n);
            assert(cur =~= ignite_ents(s0, l2, tiers));
        },
    }
}

/// The eight neighbours of `(cx, cy)`, row by row.
pub open spec fn nbrs(cx: int, cy: int) -> Seq<(i32, i32)> {
    seq![
        ((cx - 1) as i32, (cy - 1) as i32),
        (cx as i32, (cy - 1) as i32),
        ((cx + 1) as i32, (cy - 1) as i32),
        ((cx - 1) as i32, cy as i32),
        ((cx + 1) as i32, cy as i32),
        ((cx - 1) as i32, (cy + 1) as i32),
        (cx as i32, (cy + 1) as i32),
        ((cx + 1) as i32, (cy + 1) as i32),
    ]
}

proof fn lemma_nbrs_cover(cx: int, cy: int, nx: int, ny: int)
    requires
        cheb_spec(cx, cy, nx, ny) == 1,
    ensures
        exists|j: int| 0 <= j < 8 && nbrs(cx, cy)[j] == (nx as i32, ny as i32),
{
    let n = nbrs(cx, cy);
    let dx = nx - cx;
    let dy = ny - cy;
    let j = if dy == -1 {
        dx + 1
    } else if dy == 0 {
        if dx == -1 {
            3int
        } else {
            4
        }
    } else {
        dx + 6
    };
    assert(n[j] == (nx as i32, ny as i32));
}

/// Pushes the eight neighbours of `(cx, cy)` (row by row).
fn push_neighbors(st: &mut Vec<(i32, i32)>, cx: i32, cy: i32)
    requires
        coord_ok(cx as int),
        coord_ok(cy as int),
    ensures
        final(st)@ == old(st)@ + nbrs(cx as int, cy as int),
{
    st.push((cx - 1, cy - 1));
    st.push((cx, cy - 1));
    st.push((cx + 1, cy - 1));
    st.push((cx - 1, cy));
    st.push((cx + 1, cy));
    st.push((cx - 1, cy + 1));
    st.push((cx, cy + 1));
    st.push((cx + 1, cy + 1));
    assert(st@ =~= old(st)@ + nbrs(cx as int, cy as int));
}

/// Index of cell `(x, y)` on a board `w` wide.
pub open spec fn kidx(x: int, y: int, w: int) -> int {
    y * w + x
}

/// Every stacked cell is the start or a neighbour of a visited oil cell.
#[verifier::opaque]
spec fn inv_stack(g0: GameState, sx: int, sy: int, seen: Seq<bool>, st: Seq<(i32, i32)>) -> bool {
    let w = g0.w as int;
    &&& forall|k: int| 0 <= k < st.len() ==> coord_ok((#[trigger] st[k]).0 as int) && coord_ok(st[k].1 as int)
    &&& forall|k: int|
        0 <= k < st.len() ==> ((#[trigger] st[k]).0 == sx && st[k].1 == sy) || exists|x: int, y: int|
            #![trigger seen[kidx(x, y, w)]]
            g0.inb(x, y) && seen[kidx(x, y, w)] && g0.tile(x, y) == Tile::Oil && cheb_spec(
                x,
                y,
                st[k].0 as int,
                st[k].1 as int,
            ) == 1
}

/// Every visited oil cell is joined to the start.
#[verifier::opaque]
spec fn inv_reach(g0: GameState, sx: int, sy: int, seen: Seq<bool>) -> bool {
    let w = g0.w as int;
    forall|x: int, y: int|
        g0.inb(x, y) && #[trigger] seen[kidx(x, y, w)] && g0.tile(x, y) == Tile::Oil ==> oil_reach(g0, sx, sy, x, y)
}

/// The start and every neighbour of a visited oil cell are visited or still stacked.
#[verifier::opaque]
spec fn inv_closed(g0: GameState, sx: int, sy: int, seen: Seq<bool>, st: Seq<(i32, i32)>) -> bool {
    let w = g0.w as int;
    &&& forall|x: int, y: int, nx: int, ny: int|
        g0.inb(x, y) && #[trigger] seen[kidx(x, y, w)] && g0.tile(x, y) == Tile::Oil && g0.inb(nx, ny)
            && #[trigger] cheb_spec(x, y, nx, ny) == 1 ==> seen[kidx(nx, ny, w)] || st.contains(
            (nx as i32, ny as i32),
        )
    &&& g0.inb(sx, sy) ==> seen[kidx(sx, sy, w)] || st.contains((sx as i32, sy as i32))
}

/// Visited oil cells burn; every other cell keeps its fire.
#[verifier::opaque]
spec fn inv_fire(g0: GameState, fire: Seq<Vec<i32>>, seen: Seq<bool>) -> bool {
    let w = g0.w as int;
    forall|x: int, y: int|
        g0.inb(x, y) ==> #[trigger] fire[y]@[x] == if seen[kidx(x, y, w)] && g0.tile(x, y) == Tile::Oil {
            FIRE_DUR
        } else {
            g0.fire_at(x, y)
        }
}

/// DFS invariant of `ignite_oil`.
spec fn ignite_inv(
    g0: GameState,
    fire: Seq<Vec<i32>>,
    sx: int,
    sy: int,
    seen: Seq<bool>,
    st: Seq<(i32, i32)>,
) -> bool {
    &&& seen.len() == g0.w * g0.h
    &&& inv_stack(g0, sx, sy, seen, st)
    &&& inv_reach(g0, sx, sy, seen)
    &&& inv_closed(g0, sx, sy, seen, st)
    &&& inv_fire(g0, fire, seen)
}

/// Marking `(cx, cy)` visited marks exactly that cell.
proof fn lemma_seen_update(g0: GameState, seen0: Seq<bool>, cx: int, cy: int)
    requires
        g0.wf(),
        g0.inb(cx, cy),
        seen0.len() == g0.w * g0.h,
    ensures
        forall|x: int, y: int|
            g0.inb(x, y) ==> (#[trigger] seen0.update(kidx(cx, cy, g0.w as int), true)[kidx(x, y, g0.w as int)]
                == (seen0[kidx(x, y, g0.w as int)] || (x == cx && y == cy))),
{
    let w = g0.w as int;
    let h = g0.h as int;
    lemma_cell_index(cx, cy, w, h);
    assert forall|x: int, y: int| g0.inb(x, y) implies (#[trigger] seen0.update(kidx(cx, cy, w), true)[kidx(
        x,
        y,
        w,
    )] == (seen0[kidx(x, y, w)] || (x == cx && y == cy))) by {
        lemma_cell_index(x, y, w, h);
    }
}

/// The flood of `ignite_oil` after some rounds: the stack of cells to look at, the
/// cells seen, and the oil cells lit so far, in order.
#[verifier::ext_equal]
pub struct Flood {
    pub st: Seq<(i32, i32)>,
    pub seen: Seq<bool>,
    pub order: Seq<(i32, i32)>,
}

/// One round of the flood: the last stacked cell is taken; an off-board or seen cell is
/// dropped; otherwise it is seen, and an oil cell is lit and its eight neighbours are
/// stacked (row by row from the top left). An empty stack ends the flood.
pub open spec fn flood_step(g: GameState, f: Flood) -> Flood {
    if f.st.len() == 0 {
        f
    } else {
        let c = f.st.last();
        let st = f.st.drop_last();
        let (x, y) = (c.0 as int, c.1 as int);
        if !g.inb(x, y) || f.seen[kidx(x, y, g.w as int)] {
            Flood { st, ..f }
        } else if g.tile(x, y) != Tile::Oil {
            Flood { st, seen: f.seen.update(kidx(x, y, g.w as int), true), ..f }
        } else {
            Flood { st: st + nbrs(x, y), seen: f.seen.update(kidx(x, y, g.w as int), true), order: f.order.push(c) }
        }
    }
}

/// The flood from `(sx, sy)` after `k` rounds.
pub open spec fn flood_after(g: GameState, sx: int, sy: int, k: nat) -> Flood
    decreases k,
{
    if k == 0 {
        Flood {
            st: seq![(sx as i32, sy as i32)],
            seen: Seq::new((g.w * g.h) as nat, |i: int| false),
            order: Seq::empty(),
        }
    } else {
        flood_step(g, flood_after(g, sx, sy, (k - 1) as nat))
    }
}

proof fn lemma_flood_stable(g: GameState, sx: int, sy: int, k1: nat, k2: nat)
    requires
        k1 <= k2,
        flood_after(g, sx, sy, k1).st.len() == 0,
    ensures
        flood_after(g, sx, sy, k2) == flood_after(g, sx, sy, k1),
    decreases k2,
{
    if k2 > k1 {
        lemma_flood_stable(g, sx, sy, k1, (k2 - 1) as nat);
    }
}

/// The flood depends on the board only.
pub proof fn lemma_flood_board(a: GameState, b: GameState, sx: int, sy: int, k: nat)
    requires
        a.w == b.w,
        a.h == b.h,
        a.tiles == b.tiles,
    ensures
        flood_after(a, sx, sy, k) == flood_after(b, sx, sy, k),
    decreases k,
{
    if k > 0 {
        lemma_flood_board(a, b, sx, sy, (k - 1) as nat);
    }
}

/// The oil cells lit by igniting `(sx, sy)`, in the order the flood reaches them (it
/// ends within `9 * w * h + 1` rounds).
pub open spec fn flood_order(g: GameState, sx: int, sy: int) -> Seq<(i32, i32)> {
    flood_after(g, sx, sy, (9 * (g.w * g.h) + 1) as nat).order
}

/// The events of the fire reaching cell `c`: the first alive unit there, unless it is
/// the mage, takes `FIRE_DOT` (see `damage_events`).
pub open spec fn cell_burn_events(s: Seq<Entity>, c: (i32, i32), t: TierTable) -> Seq<Event> {
    match first_index(s, occupies(c.0 as int, c.1 as int)) {
        Some(i) => if s[i].kind != Kind::Mage {
            damage_events(s, i, FIRE_DOT, t)
        } else {
            Seq::empty()
        },
        None => Seq::empty(),
    }
}

/// The events of the fire reaching the cells `cells` in order.
pub open spec fn flood_events(s: Seq<Entity>, cells: Seq<(i32, i32)>, t: TierTable) -> Seq<Event>
    decreases cells.len(),
{
    if cells.len() == 0 {
        Seq::empty()
    } else {
        flood_events(s, cells.drop_last(), t) + cell_burn_events(s, cells.last(), t)
    }
}

/// Ignite `(sx, sy)`: fire floods (depth first) along the king-connected oil cells joined
/// to it; each burning oil cell hurts the first alive non-mage unit on it by `FIRE_DOT`,
/// in the order the flood reaches the cells (see `flood_order`). Igniting never hurts
/// the mage.
pub fn ignite_oil(g: &mut GameState, sx: i32, sy: i32, ctx: &mut StepCtx)
    requires
        old(g).wf(),
        old(g).has_mage() || old(ctx).tiers.tier_of(Spell::Haste) < 2,
    ensures
        final(g).w == old(g).w,
        final(g).h == old(g).h,
        final(g).tiles == old(g).tiles,
        final(g).burn_t == old(g).burn_t,
        final(g).room_idx == old(g).room_idx,
        final(g).core == old(g).core,
        final(g).wf(),
        fire_after_ignite(*old(g), *final(g), sx as int, sy as int),
        ents_burned(old(g).entities@, final(g).entities@),
        final(g).entities@ == ignite_ents(old(g).entities@, reach_set(*old(g), sx as int, sy as int), old(ctx).tiers),
        final(ctx).events@.subrange(old(ctx).events@.len() as int, final(ctx).events@.len() as int).to_multiset()
            == ignite_events(
            old(g).entities@,
            reach_set(*old(g), sx as int, sy as int),
            old(ctx).tiers,
            old(g).entities@.len() as int,
        ),
        final(g).has_mage() == old(g).has_mage(),
        final(g).mage_index() == old(g).mage_index(),
        final(ctx).mage_hurt == old(ctx).mage_hurt,
        final(ctx).tiers == old(ctx).tiers,
        extends(final(ctx).events@, old(ctx).events@),
        final(ctx).events@.subrange(old(ctx).events@.len() as int, final(ctx).events@.len() as int) == flood_events(
            old(g).entities@,
            flood_order(*old(g), sx as int, sy as int),
            old(ctx).tiers,
        ),
{
    if !crate::grid::in_bounds(g, sx, sy) {
        proof {
            lemma_ignite_off_board(*g, sx as int, sy as int, ctx.tiers, ctx.events@);
            lemma_extends_refl(ctx.events@);
            let l = ctx.events@.len() as int;
            assert(ctx.events@.subrange(l, l) =~= Seq::<Event>::empty());
            vstd::seq_lib::to_multiset_len(Seq::<Event>::empty());
            assert(Seq::<Event>::empty().to_multiset() =~= Multiset::<Event>::empty());
        }
        return;
    }
    ignite_from(g, sx, sy, ctx);
}

/// Nothing catches fire from a start off the board.
proof fn lemma_ignite_off_board(g: GameState, sx: int, sy: int, t: TierTable, ev: Seq<Event>)
    requires
        !g.inb(sx, sy),
        i32::MIN <= sx <= i32::MAX,
        i32::MIN <= sy <= i32::MAX,
        g.w >= 0,
        g.h >= 0,
    ensures
        forall|x: int, y: int| !#[trigger] oil_reach(g, sx, sy, x, y),
        ignite_ents(g.entities@, reach_set(g, sx, sy), t) == g.entities@,
        ignite_events(g.entities@, reach_set(g, sx, sy), t, g.entities@.len() as int) =~= Multiset::<Event>::empty(),
        flood_order(g, sx, sy) == Seq::<(i32, i32)>::empty(),
        flood_events(g.entities@, flood_order(g, sx, sy), t) == Seq::<Event>::empty(),
{
    let s = g.entities@;
    let lit = reach_set(g, sx, sy);
    assert forall|x: int, y: int| !#[trigger] oil_reach(g, sx, sy, x, y) by {
        if oil_reach(g, sx, sy, x, y) {
            let p = choose|p: Seq<(int, int)>| #[trigger] oil_path(g, p) && p[0] == (sx, sy) && p.last() == (x, y);
            assert(g.inb(p[0].0, p[0].1));
        }
    }
    assert forall|i: int| 0 <= i < s.len() implies !#[trigger] ignited(s, lit, i) by {
        assert(!oil_reach(g, sx, sy, s[i].x as int, s[i].y as int));
    }
    lemma_no_kills(s, lit, s.len() as int);
    assert(ignite_ents(s, lit, t) =~= s);
    lemma_no_ignite_events(s, lit, t, s.len() as int);
    let k = (9 * (g.w * g.h) + 1) as nat;
    assert(g.w * g.h >= 0) by (nonlinear_arith)
        requires
            g.w >= 0,
            g.h >= 0,
    ;
    let f0 = flood_after(g, sx, sy, 0);
    assert(f0.st.last() == (sx as i32, sy as i32));
    assert(f0.st.drop_last() =~= Seq::<(i32, i32)>::empty());
    assert(flood_after(g, sx, sy, 1) == flood_step(g, f0));
    assert(flood_after(g, sx, sy, 1).st.len() == 0);
    lemma_flood_stable(g, sx, sy, 1, k);
}

proof fn lemma_no_kills(s: Seq<Entity>, lit: spec_fn(int, int) -> bool, n: int)
    requires
        forall|i: int| 0 <= i < s.len() ==> !#[trigger] ignited(s, lit, i),
        n <= s.len(),
    ensures
        ignite_kills(s, lit, n) == 0,
    decreases n,
{
    if n > 0 {
        lemma_no_kills(s, lit, n - 1);
    }
}

proof fn lemma_no_ignite_events(s: Seq<Entity>, lit: spec_fn(int, int) -> bool, t: TierTable, n: int)
    requires
        forall|i: int| 0 <= i < s.len() ==> !#[trigger] ignited(s, lit, i),
        n <= s.len(),
    ensures
        ignite_events(s, lit, t, n) =~= Multiset::<Event>::empty(),
    decreases n,
{
    if n > 0 {
        lemma_no_ignite_events(s, lit, t, n - 1);
    }
}

fn ignite_from(g: &mut GameState, sx: i32, sy: i32, ctx: &mut StepCtx)
    requires
        old(g).wf(),
        coord_ok(sx as int),
        coord_ok(sy as int),
        old(g).has_mage() || old(ctx).tiers.tier_of(Spell::Haste) < 2,
    ensures
        final(g).w == old(g).w,
        final(g).h == old(g).h,
        final(g).tiles == old(g).tiles,
        final(g).burn_t == old(g).burn_t,
        final(g).room_idx == old(g).room_idx,
        final(g).core == old(g).core,
        final(g).wf(),
        fire_after_ignite(*old(g), *final(g), sx as int, sy as int),
        ents_burned(old(g).entities@, final(g).entities@),
        final(g).entities@ == ignite_ents(old(g).entities@, reach_set(*old(g), sx as int, sy as int), old(ctx).tiers),
        final(ctx).events@.subrange(old(ctx).events@.len() as int, final(ctx).events@.len() as int).to_multiset()
            == ignite_events(
            old(g).entities@,
            reach_set(*old(g), sx as int, sy as int),
            old(ctx).tiers,
            old(g).entities@.len() as int,
        ),
        final(g).has_mage() == old(g).has_mage(),
        final(g).mage_index() == old(g).mage_index(),
        final(ctx).mage_hurt == old(ctx).mage_hurt,
        final(ctx).tiers == old(ctx).tiers,
        extends(final(ctx).events@, old(ctx).events@),
        final(ctx).events@.subrange(old(ctx).events@.len() as int, final(ctx).events@.len() as int) == flood_events(
            old(g).entities@,
            flood_order(*old(g), sx as int, sy as int),
            old(ctx).tiers,
        ),
{
    let ghost g0 = *g;
    let ghost ol = ctx.events@.len() as int;
    let w = g.w;
    let n: usize = (g.w * g.h) as usize;
    let mut seen: Vec<bool> = Vec::new();
    let mut i: usize = 0;
    while i < n
        invariant
            i <= n,
            seen@.len() == i,
            forall|k: int| 0 <= k < i ==> !#[trigger] seen@[k],
        decreases n - i,
    {
        seen.push(false);
        i = i + 1;
    }
    let mut st: Vec<(i32, i32)> = Vec::new();
    st.push((sx, sy));
    proof {
        lemma_count_false(seen@);
        lemma_extends_refl(ctx.events@);
        lemma_ignite_init(g0, sx as int, sy as int, seen@, st@);
        assert forall|x: int, y: int| !#[trigger] seen_lit(g0, seen@)(x, y) by {
            if g0.inb(x, y) {
                lemma_cell_index(x, y, g0.w as int, g0.h as int);
            }
        }
        lemma_ignite_none(g0.entities@, seen_lit(g0, seen@), ctx.tiers);
        lemma_bag_empty(g0.entities@, seen_lit(g0, seen@), ctx.tiers, g0.entities@.len() as int);
        assert(ctx.events@.subrange(old(ctx).events@.len() as int, ctx.events@.len() as int) =~= Seq::<Event>::empty());
        let e = Seq::<Event>::empty();
        e.to_multiset_ensures();
        assert(e.to_multiset() =~= Multiset::<Event>::empty());
        assert(seen@ =~= Seq::new((g0.w * g0.h) as nat, |i: int| false));
        assert(st@ =~= seq![(sx, sy)]);
    }
    let ghost mut rounds: nat = 0;
    let ghost mut ord: Seq<(i32, i32)> = Seq::empty();
    while st.len() > 0
        invariant
            g0.wf(),
            seen@.len() == n,
            g.wf(),
            w == g0.w,
            n == g0.w * g0.h,
            coord_ok(sx as int),
            coord_ok(sy as int),
            g.w == g0.w,
            g.h == g0.h,
            g.tiles == g0.tiles,
            g.burn_t == g0.burn_t,
            g.room_idx == g0.room_idx,
            g.core == g0.core,
            g.fire@.len() == g0.fire@.len(),
            forall|y: int| 0 <= y < g0.h ==> (#[trigger] g.fire@[y])@.len() == g0.fire@[y]@.len(),
            ignite_inv(g0, g.fire@, sx as int, sy as int, seen@, st@),
            ents_burned(g0.entities@, g.entities@),
            g.entities@ == ignite_ents(g0.entities@, seen_lit(g0, seen@), ctx.tiers),
            ctx.events@.subrange(old(ctx).events@.len() as int, ctx.events@.len() as int).to_multiset()
                == ignite_events(g0.entities@, seen_lit(g0, seen@), ctx.tiers, g0.entities@.len() as int),
            g.has_mage() == g0.has_mage(),
            g.mage_index() == g0.mage_index(),
            g0.has_mage() || ctx.tiers.tier_of(Spell::Haste) < 2,
            ctx.mage_hurt == old(ctx).mage_hurt,
            ctx.tiers == old(ctx).tiers,
            extends(ctx.events@, old(ctx).events@),
            count_true(seen@) <= n,
            (Flood { st: st@, seen: seen@, order: ord }) == flood_after(g0, sx as int, sy as int, rounds),
            rounds + (n - count_true(seen@)) * 9 + st@.len() <= 9 * n + 1,
            ol == old(ctx).events@.len(),
            ctx.events@.subrange(ol, ctx.events@.len() as int) == flood_events(g0.entities@, ord, ctx.tiers),
        decreases (n - count_true(seen@)) * 9 + st@.len(),
    {
        let ghost st0 = st@;
        let ghost seen0 = seen@;
        let ghost f0 = Flood { st: st@, seen: seen@, order: ord };
        let ghost ev0 = ctx.events@;
        proof {
            rounds = rounds + 1;
        }
        let (cx, cy) = st.pop().unwrap();
        proof {
            assert(st0.last() == (cx, cy));
            assert(st@ =~= st0.drop_last());
        }
        if !in_bounds(g, cx, cy) {
            proof {
                lemma_ignite_pop(g0, *g, sx as int, sy as int, seen@, st0);
            }
            continue;
        }
        proof {
            lemma_cell_index(cx as int, cy as int, w as int, g0.h as int);
        }
        let k: usize = (cy * w + cx) as usize;
        if seen[k] {
            proof {
                lemma_ignite_pop(g0, *g, sx as int, sy as int, seen@, st0);
            }
            continue;
        }
        proof {
            lemma_count_true(seen@, k as int);
        }
        seen.set(k, true);
        proof {
            lemma_seen_update(g0, seen0, cx as int, cy as int);
        }
        if g.tiles[cy as usize][cx as usize] != Tile::Oil {
            proof {
                lemma_ignite_visit(g0, *g, sx as int, sy as int, seen0, st0, cx as int, cy as int);
                assert(seen_lit(g0, seen@) =~= seen_lit(g0, seen0));
            }
            continue;
        }
        proof {
            assert(seen@ == seen0.update(kidx(cx as int, cy as int, g0.w as int), true));
            assert forall|x: int, y: int| !(x == cx && y == cy) implies #[trigger] seen_lit(g0, seen@)(x, y)
                == seen_lit(g0, seen0)(x, y) by {
                if g0.inb(x, y) {
                    assert(seen0.update(kidx(cx as int, cy as int, g0.w as int), true)[kidx(x, y, g0.w as int)]
                        == seen0[kidx(x, y, g0.w as int)]);
                }
            }
            assert(seen_lit(g0, seen@)(cx as int, cy as int));
            assert(!seen_lit(g0, seen0)(cx as int, cy as int));
            lemma_ignite_step(
                g0.entities@,
                g.entities@,
                seen_lit(g0, seen0),
                seen_lit(g0, seen@),
                cx as int,
                cy as int,
                ctx.tiers,
            );
        }
        let ghost gb = *g;
        g.fire[cy as usize][cx as usize] = FIRE_DUR;
        proof {
            lemma_fire_set_ok(gb, *g, cx as int, cy as int);
        }
        let ghost gf = *g;
        match ent_index_at(g, cx, cy) {
            Some(idx) => {
                proof {
                    lemma_first_index(g.entities@, occupies(cx as int, cy as int));
                }
                if !g.entities[idx].kind.is_mage() {
                    let ghost gd = *g;
                    let ghost evd = ctx.events@;
                    deal_damage(g, idx, FIRE_DOT, ctx);
                    proof {
                        let ol = old(ctx).events@.len() as int;
                        let de = damage_events(gd.entities@, idx as int, FIRE_DOT, ctx.tiers);
                        assert(ctx.events@.subrange(ol, ctx.events@.len() as int) =~= evd.subrange(ol, evd.len() as int)
                            + de);
                        vstd::seq_lib::lemma_multiset_commutative(evd.subrange(ol, evd.len() as int), de);
                        assert(ctx.events@ == evd + damage_events(gd.entities@, idx as int, FIRE_DOT, ctx.tiers));
                        lemma_extends_append(evd, old(ctx).events@, ctx.events@);
                        lemma_damage_others(gd.entities@, idx as int, FIRE_DOT, ctx.tiers);
                        lemma_burn_step(g0.entities@, gd.entities@, g.entities@, idx as int, ctx.tiers);
                    }
                }
            },
            None => {},
        }
        proof {
            let added = cell_burn_events(g0.entities@, (cx, cy), ctx.tiers);
            assert(ctx.events@ =~= ev0 + added);
            assert(ctx.events@.subrange(ol, ctx.events@.len() as int) =~= ev0.subrange(ol, ev0.len() as int) + added);
            assert(ord.push((cx, cy)).drop_last() =~= ord);
            ord = ord.push((cx, cy));
        }
        push_neighbors(&mut st, cx, cy);
        proof {
            lemma_ignite_visit_oil(g0, gb, gf, sx as int, sy as int, seen0, st0, cx as int, cy as int);
            assert(g0.tile(cx as int, cy as int) == Tile::Oil);
            assert((Flood { st: st@, seen: seen@, order: ord }) == flood_step(g0, f0));
        }
    }
    proof {
        assert(st@ =~= Seq::<(i32, i32)>::empty());
        lemma_flood_stable(g0, sx as int, sy as int, rounds, (9 * n + 1) as nat);
        lemma_ignite_done(g0, *g, sx as int, sy as int, seen@);
        lemma_ignite_lit(g0, *g, sx as int, sy as int, seen@);
    }
}

proof fn lemma_ignite_init(g0: GameState, sx: int, sy: int, seen: Seq<bool>, st: Seq<(i32, i32)>)
    requires
        g0.wf(),
        coord_ok(sx),
        coord_ok(sy),
        seen.len() == g0.w * g0.h,
        forall|k: int| 0 <= k < seen.len() ==> !#[trigger] seen[k],
        st == seq![(sx as i32, sy as i32)],
    ensures
        ignite_inv(g0, g0.fire@, sx, sy, seen, st),
{
    reveal(inv_stack);
    reveal(inv_reach);
    reveal(inv_closed);
    reveal(inv_fire);
    let w = g0.w as int;
    assert(st[0] == (sx as i32, sy as i32));
    assert forall|x: int, y: int| g0.inb(x, y) implies !#[trigger] seen[kidx(x, y, w)] by {
        lemma_cell_index(x, y, w, g0.h as int);
    }
}

proof fn lemma_ignite_pop(g0: GameState, g: GameState, sx: int, sy: int, seen: Seq<bool>, st0: Seq<(i32, i32)>)
    requires
        g0.wf(),
        ignite_inv(g0, g.fire@, sx, sy, seen, st0),
        st0.len() >= 1,
        !g0.inb(st0.last().0 as int, st0.last().1 as int) || seen[kidx(
            st0.last().0 as int,
            st0.last().1 as int,
            g0.w as int,
        )],
    ensures
        ignite_inv(g0, g.fire@, sx, sy, seen, st0.drop_last()),
{
    reveal(inv_stack);
    reveal(inv_reach);
    reveal(inv_closed);
    reveal(inv_fire);
    let w = g0.w as int;
    let st = st0.drop_last();
    let e = st0.last();
    assert forall|k: int| 0 <= k < st.len() implies coord_ok((#[trigger] st[k]).0 as int) && coord_ok(st[k].1 as int)
        && (((st[k]).0 == sx && st[k].1 == sy) || exists|x: int, y: int|
        #![trigger seen[kidx(x, y, w)]]
        g0.inb(x, y) && seen[kidx(x, y, w)] && g0.tile(x, y) == Tile::Oil && cheb_spec(
            x,
            y,
            st[k].0 as int,
            st[k].1 as int,
        ) == 1) by {
        assert(st[k] == st0[k]);
    }
    assert forall|x: int, y: int, nx: int, ny: int|
        g0.inb(x, y) && #[trigger] seen[kidx(x, y, w)] && g0.tile(x, y) == Tile::Oil && g0.inb(nx, ny)
            && #[trigger] cheb_spec(x, y, nx, ny) == 1 implies seen[kidx(nx, ny, w)] || st.contains(
        (nx as i32, ny as i32),
    ) by {
        lemma_stack_rest(st0, (nx as i32, ny as i32));
        if (nx as i32, ny as i32) == e {
            assert(nx == e.0 && ny == e.1);
        }
    }
    if g0.inb(sx, sy) {
        lemma_stack_rest(st0, (sx as i32, sy as i32));
    }
}

/// An element of a stack other than its top stays after popping.
proof fn lemma_stack_rest(st0: Seq<(i32, i32)>, v: (i32, i32))
    requires
        st0.len() >= 1,
    ensures
        st0.contains(v) && v != st0.last() ==> st0.drop_last().contains(v),
{
    if st0.contains(v) && v != st0.last() {
        let k = choose|k: int| 0 <= k < st0.len() && st0[k] == v;
        assert(k < st0.len() - 1);
        assert(st0.drop_last()[k] == v);
    }
}

proof fn lemma_ignite_visit(
    g0: GameState,
    g: GameState,
    sx: int,
    sy: int,
    seen0: Seq<bool>,
    st0: Seq<(i32, i32)>,
    cx: int,
    cy: int,
)
    requires
        g0.wf(),
        ignite_inv(g0, g.fire@, sx, sy, seen0, st0),
        st0.len() >= 1,
        st0.last() == (cx as i32, cy as i32),
        g0.inb(cx, cy),
        !seen0[kidx(cx, cy, g0.w as int)],
        g0.tile(cx, cy) != Tile::Oil,
    ensures
        ignite_inv(g0, g.fire@, sx, sy, seen0.update(kidx(cx, cy, g0.w as int), true), st0.drop_last()),
{
    reveal(inv_stack);
    reveal(inv_reach);
    reveal(inv_closed);
    reveal(inv_fire);
    let w = g0.w as int;
    let h = g0.h as int;
    let kc = kidx(cx, cy, w);
    let seen = seen0.update(kc, true);
    let st = st0.drop_last();
    lemma_cell_index(cx, cy, w, h);
    assert forall|x: int, y: int| g0.inb(x, y) implies (seen[kidx(x, y, w)] == (seen0[kidx(x, y, w)] || (x == cx
        && y == cy))) by {
        lemma_cell_index(x, y, w, h);
    }
    assert forall|k: int| 0 <= k < st.len() implies coord_ok((#[trigger] st[k]).0 as int) && coord_ok(st[k].1 as int)
        && (((st[k]).0 == sx && st[k].1 == sy) || exists|x: int, y: int|
        #![trigger seen[kidx(x, y, w)]]
        g0.inb(x, y) && seen[kidx(x, y, w)] && g0.tile(x, y) == Tile::Oil && cheb_spec(
            x,
            y,
            st[k].0 as int,
            st[k].1 as int,
        ) == 1) by {
        assert(st[k] == st0[k]);
        if !(st[k].0 == sx && st[k].1 == sy) {
            let (x, y) = choose|x: int, y: int|
                #![trigger seen0[kidx(x, y, w)]]
                g0.inb(x, y) && seen0[kidx(x, y, w)] && g0.tile(x, y) == Tile::Oil && cheb_spec(
                    x,
                    y,
                    st0[k].0 as int,
                    st0[k].1 as int,
                ) == 1;
            assert(seen[kidx(x, y, w)]);
        }
    }
    assert forall|x: int, y: int|
        g0.inb(x, y) && #[trigger] seen[kidx(x, y, w)] && g0.tile(x, y) == Tile::Oil implies oil_reach(
        g0,
        sx,
        sy,
        x,
        y,
    ) by {
        assert(seen0[kidx(x, y, w)]);
    }
    assert forall|x: int, y: int, nx: int, ny: int|
        g0.inb(x, y) && #[trigger] seen[kidx(x, y, w)] && g0.tile(x, y) == Tile::Oil && g0.inb(nx, ny)
            && #[trigger] cheb_spec(x, y, nx, ny) == 1 implies seen[kidx(nx, ny, w)] || st.contains(
        (nx as i32, ny as i32),
    ) by {
        assert(seen0[kidx(x, y, w)]);
        lemma_stack_rest(st0, (nx as i32, ny as i32));
        assert(seen0[kidx(nx, ny, w)] || st0.contains((nx as i32, ny as i32)));
    }
    if g0.inb(sx, sy) {
        lemma_stack_rest(st0, (sx as i32, sy as i32));
    }
    assert forall|x: int, y: int| g0.inb(x, y) implies #[trigger] g.fire_at(x, y) == if seen[kidx(x, y, w)]
        && g0.tile(x, y) == Tile::Oil {
        FIRE_DUR
    } else {
        g0.fire_at(x, y)
    } by {}
}

/// Setting one fire cell keeps the board well formed and changes only that cell.
pub proof fn lemma_fire_set_ok(a: GameState, b: GameState, x: int, y: int)
    requires
        a.wf(),
        a.inb(x, y),
        b.w == a.w,
        b.h == a.h,
        b.tiles == a.tiles,
        b.burn_t == a.burn_t,
        b.entities == a.entities,
        b.fire@.len() == a.fire@.len(),
        forall|r: int| 0 <= r < a.fire@.len() && r != y ==> #[trigger] b.fire@[r] == a.fire@[r],
        b.fire@[y]@ == a.fire@[y]@.update(x, FIRE_DUR),
    ensures
        b.wf(),
        forall|r: int| 0 <= r < a.h ==> (#[trigger] b.fire@[r])@.len() == a.fire@[r]@.len(),
        forall|xx: int, yy: int|
            a.inb(xx, yy) ==> #[trigger] b.fire_at(xx, yy) == if xx == x && yy == y {
                FIRE_DUR
            } else {
                a.fire_at(xx, yy)
            },
{
    assert forall|r: int| 0 <= r < a.h implies (#[trigger] b.fire@[r])@.len() == a.fire@[r]@.len() by {
        if r != y {
            assert(b.fire@[r] == a.fire@[r]);
        }
    }
    assert forall|xx: int, yy: int| a.inb(xx, yy) implies #[trigger] b.fire_at(xx, yy) == if xx == x && yy == y {
        FIRE_DUR
    } else {
        a.fire_at(xx, yy)
    } by {
        if yy != y {
            assert(b.fire@[yy] == a.fire@[yy]);
        }
    }
    assert(b.grids_ok()) by {
        assert forall|xx: int, yy: int| b.inb(xx, yy) && #[trigger] b.tile(xx, yy) == Tile::WoodBurn implies b.burn_at(
            xx,
            yy,
        ) > i32::MIN by {
            assert(a.tile(xx, yy) == Tile::WoodBurn);
        }
    }
}

proof fn lemma_ignite_visit_oil(
    g0: GameState,
    gb: GameState,
    g: GameState,
    sx: int,
    sy: int,
    seen0: Seq<bool>,
    st0: Seq<(i32, i32)>,
    cx: int,
    cy: int,
)
    requires
        g0.wf(),
        ignite_inv(g0, gb.fire@, sx, sy, seen0, st0),
        st0.len() >= 1,
        st0.last() == (cx as i32, cy as i32),
        g0.inb(cx, cy),
        !seen0[kidx(cx, cy, g0.w as int)],
        g0.tile(cx, cy) == Tile::Oil,
        g.fire@.len() == gb.fire@.len(),
        forall|xx: int, yy: int|
            g0.inb(xx, yy) ==> #[trigger] g.fire_at(xx, yy) == if xx == cx && yy == cy {
                FIRE_DUR
            } else {
                gb.fire_at(xx, yy)
            },
    ensures
        ignite_inv(g0, g.fire@, sx, sy, seen0.update(kidx(cx, cy, g0.w as int), true), st0.drop_last() + nbrs(cx, cy)),
{
    lemma_seen_update(g0, seen0, cx, cy);
    lemma_visit_oil_stack(g0, sx, sy, seen0, st0, cx, cy);
    lemma_visit_oil_reach(g0, sx, sy, seen0, st0, cx, cy);
    lemma_visit_oil_closed(g0, sx, sy, seen0, st0, cx, cy);
    lemma_visit_oil_fire(g0, gb, g, seen0, cx, cy);
    lemma_cell_index(cx, cy, g0.w as int, g0.h as int);
}

proof fn lemma_visit_oil_stack(g0: GameState, sx: int, sy: int, seen0: Seq<bool>, st0: Seq<(i32, i32)>, cx: int, cy: int)
    requires
        g0.wf(),
        seen0.len() == g0.w * g0.h,
        inv_stack(g0, sx, sy, seen0, st0),
        st0.len() >= 1,
        g0.inb(cx, cy),
        g0.tile(cx, cy) == Tile::Oil,
        forall|x: int, y: int|
            g0.inb(x, y) ==> (#[trigger] seen0.update(kidx(cx, cy, g0.w as int), true)[kidx(x, y, g0.w as int)]
                == (seen0[kidx(x, y, g0.w as int)] || (x == cx && y == cy))),
    ensures
        inv_stack(g0, sx, sy, seen0.update(kidx(cx, cy, g0.w as int), true), st0.drop_last() + nbrs(cx, cy)),
{
    reveal(inv_stack);
    let w = g0.w as int;
    let seen = seen0.update(kidx(cx, cy, w), true);
    let st = st0.drop_last() + nbrs(cx, cy);
    assert(seen[kidx(cx, cy, w)]);
    assert forall|k: int| 0 <= k < st.len() implies coord_ok((#[trigger] st[k]).0 as int) && coord_ok(st[k].1 as int)
        && (((st[k]).0 == sx && st[k].1 == sy) || exists|x: int, y: int|
        #![trigger seen[kidx(x, y, w)]]
        g0.inb(x, y) && seen[kidx(x, y, w)] && g0.tile(x, y) == Tile::Oil && cheb_spec(
            x,
            y,
            st[k].0 as int,
            st[k].1 as int,
        ) == 1) by {
        if k < st0.len() - 1 {
            assert(st[k] == st0[k]);
            if !(st[k].0 == sx && st[k].1 == sy) {
                let (x, y) = choose|x: int, y: int|
                    #![trigger seen0[kidx(x, y, w)]]
                    g0.inb(x, y) && seen0[kidx(x, y, w)] && g0.tile(x, y) == Tile::Oil && cheb_spec(
                        x,
                        y,
                        st0[k].0 as int,
                        st0[k].1 as int,
                    ) == 1;
                assert(seen[kidx(x, y, w)]);
            }
        } else {
            assert(st[k] == nbrs(cx, cy)[k - (st0.len() - 1)]);
            let e = st[k];
            assert(cheb_spec(cx, cy, e.0 as int, e.1 as int) == 1);
        }
    }
}

proof fn lemma_visit_oil_reach(g0: GameState, sx: int, sy: int, seen0: Seq<bool>, st0: Seq<(i32, i32)>, cx: int, cy: int)
    requires
        g0.wf(),
        seen0.len() == g0.w * g0.h,
        inv_stack(g0, sx, sy, seen0, st0),
        inv_reach(g0, sx, sy, seen0),
        st0.len() >= 1,
        st0.last() == (cx as i32, cy as i32),
        g0.inb(cx, cy),
        g0.tile(cx, cy) == Tile::Oil,
        forall|x: int, y: int|
            g0.inb(x, y) ==> (#[trigger] seen0.update(kidx(cx, cy, g0.w as int), true)[kidx(x, y, g0.w as int)]
                == (seen0[kidx(x, y, g0.w as int)] || (x == cx && y == cy))),
    ensures
        inv_reach(g0, sx, sy, seen0.update(kidx(cx, cy, g0.w as int), true)),
{
    reveal(inv_stack);
    reveal(inv_reach);
    let w = g0.w as int;
    let seen = seen0.update(kidx(cx, cy, w), true);
    assert(oil_reach(g0, sx, sy, cx, cy)) by {
        if cx == sx && cy == sy {
            let p = seq![(sx, sy)];
            assert(oil_path(g0, p));
        } else {
            let k = st0.len() - 1;
            assert(st0[k] == (cx as i32, cy as i32));
            let (x, y) = choose|x: int, y: int|
                #![trigger seen0[kidx(x, y, w)]]
                g0.inb(x, y) && seen0[kidx(x, y, w)] && g0.tile(x, y) == Tile::Oil && cheb_spec(
                    x,
                    y,
                    st0[k].0 as int,
                    st0[k].1 as int,
                ) == 1;
            assert(oil_reach(g0, sx, sy, x, y));
            let p = choose|p: Seq<(int, int)>| #[trigger] oil_path(g0, p) && p[0] == (sx, sy) && p.last() == (x, y);
            let q = p.push((cx, cy));
            assert(q[q.len() - 2] == (x, y));
            assert(oil_path(g0, q)) by {
                assert forall|i: int| 0 < i < q.len() implies cheb_spec(q[i - 1].0, q[i - 1].1, (#[trigger] q[i]).0, q[i].1) == 1 by {
                    if i < q.len() - 1 {
                        assert(q[i - 1] == p[i - 1] && q[i] == p[i]);
                    }
                }
                assert forall|i: int| 0 <= i < q.len() implies g0.inb((#[trigger] q[i]).0, q[i].1) && g0.tile(q[i].0, q[i].1) == Tile::Oil by {
                    if i < q.len() - 1 {
                        assert(q[i] == p[i]);
                    }
                }
            }
            assert(q[0] == (sx, sy));
        }
    }
    assert forall|x: int, y: int|
        g0.inb(x, y) && #[trigger] seen[kidx(x, y, w)] && g0.tile(x, y) == Tile::Oil implies oil_reach(
        g0,
        sx,
        sy,
        x,
        y,
    ) by {
        if !(x == cx && y == cy) {
            assert(seen0[kidx(x, y, w)]);
        }
    }
}

proof fn lemma_visit_oil_closed(g0: GameState, sx: int, sy: int, seen0: Seq<bool>, st0: Seq<(i32, i32)>, cx: int, cy: int)
    requires
        g0.wf(),
        seen0.len() == g0.w * g0.h,
        inv_closed(g0, sx, sy, seen0, st0),
        st0.len() >= 1,
        st0.last() == (cx as i32, cy as i32),
        g0.inb(cx, cy),
        forall|x: int, y: int|
            g0.inb(x, y) ==> (#[trigger] seen0.update(kidx(cx, cy, g0.w as int), true)[kidx(x, y, g0.w as int)]
                == (seen0[kidx(x, y, g0.w as int)] || (x == cx && y == cy))),
    ensures
        inv_closed(g0, sx, sy, seen0.update(kidx(cx, cy, g0.w as int), true), st0.drop_last() + nbrs(cx, cy)),
{
    reveal(inv_closed);
    let w = g0.w as int;
    let seen = seen0.update(kidx(cx, cy, w), true);
    let st = st0.drop_last() + nbrs(cx, cy);
    assert forall|x: int, y: int, nx: int, ny: int|
        g0.inb(x, y) && #[trigger] seen[kidx(x, y, w)] && g0.tile(x, y) == Tile::Oil && g0.inb(nx, ny)
            && #[trigger] cheb_spec(x, y, nx, ny) == 1 implies seen[kidx(nx, ny, w)] || st.contains(
        (nx as i32, ny as i32),
    ) by {
        if x == cx && y == cy {
            lemma_nbrs_cover(cx, cy, nx, ny);
            let j = choose|j: int| 0 <= j < 8 && nbrs(cx, cy)[j] == (nx as i32, ny as i32);
            assert(st[st0.len() - 1 + j] == (nx as i32, ny as i32));
        } else {
            assert(seen0[kidx(x, y, w)]);
            lemma_stack_rest(st0, (nx as i32, ny as i32));
            if st0.drop_last().contains((nx as i32, ny as i32)) {
                let j = choose|j: int| 0 <= j < st0.len() - 1 && st0.drop_last()[j] == (nx as i32, ny as i32);
                assert(st[j] == st0[j]);
            } else if st0.contains((nx as i32, ny as i32)) {
                assert(nx == cx && ny == cy);
            }
        }
    }
    if g0.inb(sx, sy) {
        lemma_stack_rest(st0, (sx as i32, sy as i32));
        if st0.drop_last().contains((sx as i32, sy as i32)) {
            let j = choose|j: int| 0 <= j < st0.len() - 1 && st0.drop_last()[j] == (sx as i32, sy as i32);
            assert(st[j] == st0[j]);
        }
    }
}

proof fn lemma_visit_oil_fire(g0: GameState, gb: GameState, g: GameState, seen0: Seq<bool>, cx: int, cy: int)
    requires
        g0.wf(),
        seen0.len() == g0.w * g0.h,
        inv_fire(g0, gb.fire@, seen0),
        g0.inb(cx, cy),
        g0.tile(cx, cy) == Tile::Oil,
        forall|x: int, y: int|
            g0.inb(x, y) ==> (#[trigger] seen0.update(kidx(cx, cy, g0.w as int), true)[kidx(x, y, g0.w as int)]
                == (seen0[kidx(x, y, g0.w as int)] || (x == cx && y == cy))),
        forall|xx: int, yy: int|
            g0.inb(xx, yy) ==> #[trigger] g.fire_at(xx, yy) == if xx == cx && yy == cy {
                FIRE_DUR
            } else {
                gb.fire_at(xx, yy)
            },
    ensures
        inv_fire(g0, g.fire@, seen0.update(kidx(cx, cy, g0.w as int), true)),
{
    reveal(inv_fire);
    let w = g0.w as int;
    let seen = seen0.update(kidx(cx, cy, w), true);
    assert forall|x: int, y: int| g0.inb(x, y) implies #[trigger] g.fire@[y]@[x] == if seen[kidx(x, y, w)]
        && g0.tile(x, y) == Tile::Oil {
        FIRE_DUR
    } else {
        g0.fire_at(x, y)
    } by {
        assert(g.fire_at(x, y) == g.fire@[y]@[x]);
        assert(gb.fire_at(x, y) == gb.fire@[y]@[x]);
    }
}

/// With the stack empty, the burning cells are exactly those joined to the start.
/// The oil cells visited so far.
spec fn seen_lit(g0: GameState, seen: Seq<bool>) -> spec_fn(int, int) -> bool {
    |x: int, y: int| g0.inb(x, y) && seen[kidx(x, y, g0.w as int)] && g0.tile(x, y) == Tile::Oil
}

/// Lighting nothing changes nothing.
proof fn lemma_ignite_none(s0: Seq<Entity>, lit: spec_fn(int, int) -> bool, tiers: TierTable)
    requires
        forall|x: int, y: int| !#[trigger] lit(x, y),
    ensures
        ignite_ents(s0, lit, tiers) == s0,
{
    lemma_kills_zero(s0, lit, s0.len() as int);
    assert(ignite_ents(s0, lit, tiers) =~= s0);
}

proof fn lemma_kills_zero(s0: Seq<Entity>, lit: spec_fn(int, int) -> bool, n: int)
    requires
        forall|x: int, y: int| !#[trigger] lit(x, y),
    ensures
        ignite_kills(s0, lit, n) == 0,
    decreases n,
{
    if n > 0 {
        lemma_kills_zero(s0, lit, n - 1);
    }
}

/// When the search is over, the visited oil cells are exactly those joined to the start.
proof fn lemma_ignite_lit(g0: GameState, g: GameState, sx: int, sy: int, seen: Seq<bool>)
    requires
        g0.wf(),
        ignite_inv(g0, g.fire@, sx, sy, seen, Seq::empty()),
    ensures
        seen_lit(g0, seen) == reach_set(g0, sx, sy),
{
    reveal(inv_reach);
    let w = g0.w as int;
    assert forall|x: int, y: int| #[trigger] seen_lit(g0, seen)(x, y) == reach_set(g0, sx, sy)(x, y) by {
        if g0.inb(x, y) && oil_reach(g0, sx, sy, x, y) {
            let p = choose|p: Seq<(int, int)>| #[trigger] oil_path(g0, p) && p[0] == (sx, sy) && p.last() == (x, y);
            lemma_path_seen(g0, g, sx, sy, seen, p, p.len() - 1);
            assert(p[p.len() - 1] == (x, y));
            assert(g0.tile(x, y) == Tile::Oil);
        }
    }
    assert(seen_lit(g0, seen) =~= reach_set(g0, sx, sy));
}

proof fn lemma_ignite_done(g0: GameState, g: GameState, sx: int, sy: int, seen: Seq<bool>)
    requires
        g0.wf(),
        ignite_inv(g0, g.fire@, sx, sy, seen, Seq::empty()),
    ensures
        forall|x: int, y: int|
            g0.inb(x, y) ==> #[trigger] g.fire_at(x, y) == if oil_reach(g0, sx, sy, x, y) {
                FIRE_DUR
            } else {
                g0.fire_at(x, y)
            },
{
    reveal(inv_stack);
    reveal(inv_reach);
    reveal(inv_closed);
    reveal(inv_fire);
    let w = g0.w as int;
    assert forall|x: int, y: int| g0.inb(x, y) implies #[trigger] g.fire_at(x, y) == if oil_reach(
        g0,
        sx,
        sy,
        x,
        y,
    ) {
        FIRE_DUR
    } else {
        g0.fire_at(x, y)
    } by {
        if oil_reach(g0, sx, sy, x, y) {
            let p = choose|p: Seq<(int, int)>| #[trigger] oil_path(g0, p) && p[0] == (sx, sy) && p.last() == (x, y);
            lemma_path_seen(g0, g, sx, sy, seen, p, p.len() - 1);
        }
    }
}

proof fn lemma_path_seen(g0: GameState, g: GameState, sx: int, sy: int, seen: Seq<bool>, p: Seq<(int, int)>, i: int)
    requires
        g0.wf(),
        ignite_inv(g0, g.fire@, sx, sy, seen, Seq::empty()),
        oil_path(g0, p),
        p[0] == (sx, sy),
        0 <= i < p.len(),
    ensures
        seen[kidx(p[i].0, p[i].1, g0.w as int)],
    decreases i,
{
    reveal(inv_stack);
    reveal(inv_reach);
    reveal(inv_closed);
    reveal(inv_fire);
    let e: Seq<(i32, i32)> = Seq::empty();
    if i == 0 {
        assert(g0.inb(p[0].0, p[0].1));
        assert(!e.contains((sx as i32, sy as i32)));
    } else {
        lemma_path_seen(g0, g, sx, sy, seen, p, i - 1);
        assert(g0.inb(p[i - 1].0, p[i - 1].1) && g0.tile(p[i - 1].0, p[i - 1].1) == Tile::Oil);
        assert(g0.inb(p[i].0, p[i].1));
        assert(cheb_spec(p[i - 1].0, p[i - 1].1, p[i].0, p[i].1) == 1);
        assert(!e.contains((p[i].0 as i32, p[i].1 as i32)));
    }
}

/// Entities after one more fire damage to a non-mage unit still satisfy `ents_burned`.
proof fn lemma_burn_step(s0: Seq<Entity>, sd: Seq<Entity>, s: Seq<Entity>, idx: int, t: TierTable)
    requires
        ents_burned(s0, sd),
        0 <= idx < sd.len(),
        sd[idx].kind != Kind::Mage,
        s.len() == sd.len(),
        forall|i: int| 0 <= i < sd.len() ==> same_frame(#[trigger] s[i], sd[i]) && s[i].hp <= sd[i].hp,
        forall|i: int| 0 <= i < sd.len() && i != idx ==> (#[trigger] s[i]).hp == sd[i].hp && s[i].channel == sd[i].channel,
    ensures
        ents_burned(s0, s),
{
    assert forall|i: int| 0 <= i < s0.len() && s0[i].kind == Kind::Mage implies (#[trigger] s[i]).hp == s0[i].hp
        && s[i].channel == s0[i].channel by {
        assert(sd[i].kind == Kind::Mage);
    }
}

} // verus!

verus! {

/// Tile, fire and burn timer of one cell.
pub open spec fn cell_of(g: GameState, x: int, y: int) -> (Tile, i32, i32) {
    (g.tile(x, y), g.fire_at(x, y), g.burn_at(x, y))
}

/// A burning wooden wall counts down; at zero it collapses into a burning floor.
pub open spec fn wood_step(c: (Tile, i32, i32)) -> (Tile, i32, i32) {
    if c.0 == Tile::WoodBurn {
        if c.2 - 1 <= 0 {
            (Tile::Floor, FIRE_DUR, (c.2 - 1) as i32)
        } else {
            (Tile::WoodBurn, c.1, (c.2 - 1) as i32)
        }
    } else {
        c
    }
}

/// Fire reaching a cell lights oil that is not burning yet, or sets a wooden wall alight.
pub open spec fn spread_step(c: (Tile, i32, i32)) -> (Tile, i32, i32) {
    if c.0 == Tile::Oil && c.1 == 0 {
        (Tile::Oil, FIRE_DUR, c.2)
    } else if c.0 == Tile::Wood {
        (Tile::WoodBurn, c.1, WOOD_BURN_TICKS)
    } else {
        c
    }
}

/// Fire burns down by one; oil whose fire went out turns back into floor.
pub open spec fn burn_down(c: (Tile, i32, i32)) -> (Tile, i32, i32) {
    if c.1 > 0 {
        if c.1 - 1 == 0 && c.0 == Tile::Oil {
            (Tile::Floor, 0, c.2)
        } else {
            (c.0, (c.1 - 1) as i32, c.2)
        }
    } else {
        c
    }
}

/// The cell burns once the wooden walls have counted down.
pub open spec fn lit_after_wood(g: GameState, x: int, y: int) -> bool {
    wood_step(cell_of(g, x, y)).1 > 0
}

/// Some king neighbour on the board burns once the wooden walls have counted down.
pub open spec fn near_lit(g: GameState, x: int, y: int) -> bool {
    exists|nx: int, ny: int| #[trigger] g.inb(nx, ny) && cheb_spec(x, y, nx, ny) == 1 && lit_after_wood(g, nx, ny)
}

/// A cell after one fire tick.
pub open spec fn tick_cell(g: GameState, x: int, y: int) -> (Tile, i32, i32) {
    let c1 = wood_step(cell_of(g, x, y));
    burn_down(
        if near_lit(g, x, y) {
            spread_step(c1)
        } else {
            c1
        },
    )
}

/// One fire tick on a cell that holds neither a wooden wall nor a burning one: a fire
/// burns down by exactly one (nothing relights a burning cell), and oil whose fire goes
/// out turns back into floor; an unlit cell that is neither oil nor wood stays unlit.
pub proof fn law_fire_burns_down(g: GameState, x: int, y: int)
    requires
        g.tile(x, y) != Tile::Wood,
        g.tile(x, y) != Tile::WoodBurn,
        g.fire_at(x, y) >= 0,
    ensures
        g.fire_at(x, y) > 0 ==> tick_cell(g, x, y).1 == g.fire_at(x, y) - 1,
        g.fire_at(x, y) == 1 && g.tile(x, y) == Tile::Oil ==> tick_cell(g, x, y).0 == Tile::Floor,
        g.fire_at(x, y) > 1 ==> tick_cell(g, x, y).0 == g.tile(x, y),
        g.fire_at(x, y) == 0 && g.tile(x, y) != Tile::Oil ==> tick_cell(g, x, y) == cell_of(g, x, y),
{
}

/// The burning cells (after the wooden walls counted down) among the first `k` cells,
/// row by row.
pub open spec fn lit_list(g: GameState, k: int) -> Seq<(i32, i32)>
    decreases k,
{
    if k <= 0 {
        Seq::empty()
    } else {
        let prev = lit_list(g, k - 1);
        let x = (k - 1) % (g.w as int);
        let y = (k - 1) / (g.w as int);
        if lit_after_wood(g, x, y) {
            prev.push((x as i32, y as i32))
        } else {
            prev
        }
    }
}

/// Entities, events and the mage-hurt flag after fire damage on each listed cell in
/// turn (the first alive unit on the cell takes `FIRE_DOT`).
pub open spec fn burn_all(s: Seq<Entity>, cells: Seq<(i32, i32)>, tiers: TierTable) -> (Seq<Entity>, Seq<Event>, bool)
    decreases cells.len(),
{
    if cells.len() == 0 {
        (s, Seq::empty(), false)
    } else {
        let prev = burn_all(s, cells.drop_last(), tiers);
        let c = cells.last();
        match first_index(prev.0, occupies(c.0 as int, c.1 as int)) {
            Some(i) => (
                damage_ents(prev.0, i, FIRE_DOT, tiers),
                prev.1 + damage_events(prev.0, i, FIRE_DOT, tiers),
                prev.2 || prev.0[i].kind == Kind::Mage,
            ),
            None => prev,
        }
    }
}

/// No cell but a burning wooden wall has a timer at `i32::MIN`.
pub open spec fn cell_ok(c: (Tile, i32, i32)) -> bool {
    c.0 == Tile::WoodBurn ==> c.2 > i32::MIN
}

/// The per-cell step of the first (`late == false`) or last phase of a tick.
spec fn phase_cell(late: bool, c: (Tile, i32, i32)) -> (Tile, i32, i32) {
    if late {
        burn_down(c)
    } else {
        wood_step(c)
    }
}

fn phase_cell_exec(late: bool, t: Tile, f: i32, b: i32) -> (r: (Tile, i32, i32))
    requires
        cell_ok((t, f, b)),
    ensures
        r == phase_cell(late, (t, f, b)),
        cell_ok(r),
{
    if late {
        if f > 0 {
            if f - 1 == 0 && t == Tile::Oil {
                (Tile::Floor, 0, b)
            } else {
                (t, f - 1, b)
            }
        } else {
            (t, f, b)
        }
    } else {
        if t == Tile::WoodBurn {
            if b - 1 <= 0 {
                (Tile::Floor, FIRE_DUR, b - 1)
            } else {
                (Tile::WoodBurn, f, b - 1)
            }
        } else {
            (t, f, b)
        }
    }
}

/// Board shape.
pub open spec fn board_ok(g: GameState) -> bool {
    &&& 0 <= g.w <= crate::state::COORD_CAP
    &&& 0 <= g.h <= crate::state::COORD_CAP
    &&& g.w * g.h <= i32::MAX
    &&& crate::state::grid_shape(g.tiles@, g.w as int, g.h as int)
    &&& crate::state::grid_shape(g.fire@, g.w as int, g.h as int)
    &&& crate::state::grid_shape(g.burn_t@, g.w as int, g.h as int)
}

pub proof fn lemma_board_ok(g: GameState)
    ensures
        g.grids_ok() <==> board_ok(g) && forall|x: int, y: int| g.inb(x, y) ==> cell_ok(#[trigger] cell_of(g, x, y)),
{
    if board_ok(g) && forall|x: int, y: int| g.inb(x, y) ==> cell_ok(#[trigger] cell_of(g, x, y)) {
        assert forall|x: int, y: int| g.inb(x, y) && #[trigger] g.tile(x, y) == Tile::WoodBurn implies g.burn_at(x, y)
            > i32::MIN by {
            assert(cell_ok(cell_of(g, x, y)));
        }
    }
    if g.grids_ok() {
        assert forall|x: int, y: int| g.inb(x, y) implies cell_ok(#[trigger] cell_of(g, x, y)) by {
            if g.tile(x, y) == Tile::WoodBurn {
            }
        }
    }
}

/// Writes one cell; every other cell keeps its contents.
pub fn set_cell(g: &mut GameState, x: i32, y: i32, c: (Tile, i32, i32))
    requires
        board_ok(*old(g)),
        old(g).inb(x as int, y as int),
    ensures
        board_ok(*final(g)),
        final(g).w == old(g).w,
        final(g).h == old(g).h,
        final(g).entities == old(g).entities,
        final(g).room_idx == old(g).room_idx,
        final(g).core == old(g).core,
        forall|xx: int, yy: int|
            old(g).inb(xx, yy) ==> #[trigger] cell_of(*final(g), xx, yy) == if xx == x && yy == y {
                c
            } else {
                cell_of(*old(g), xx, yy)
            },
{
    let ghost g0 = *g;
    g.tiles[y as usize][x as usize] = c.0;
    g.fire[y as usize][x as usize] = c.1;
    g.burn_t[y as usize][x as usize] = c.2;
    proof {
        assert forall|r: int| 0 <= r < g0.h implies (#[trigger] g.tiles@[r])@.len() == g0.w && g.fire@[r]@.len()
            == g0.w && g.burn_t@[r]@.len() == g0.w by {
            if r != y {
                assert(g.tiles@[r] == g0.tiles@[r]);
                assert(g.fire@[r] == g0.fire@[r]);
                assert(g.burn_t@[r] == g0.burn_t@[r]);
            }
        }
        assert forall|xx: int, yy: int| g0.inb(xx, yy) implies #[trigger] cell_of(*g, xx, yy) == if xx == x && yy
            == y {
            c
        } else {
            cell_of(g0, xx, yy)
        } by {
            if yy != y {
                assert(g.tiles@[yy] == g0.tiles@[yy]);
                assert(g.fire@[yy] == g0.fire@[yy]);
                assert(g.burn_t@[yy] == g0.burn_t@[yy]);
            }
        }
    }
}

/// Applies the first or last phase of a tick to every cell.
fn map_cells(g: &mut GameState, late: bool)
    requires
        old(g).grids_ok(),
    ensures
        final(g).grids_ok(),
        final(g).w == old(g).w,
        final(g).h == old(g).h,
        final(g).entities == old(g).entities,
        final(g).room_idx == old(g).room_idx,
        final(g).core == old(g).core,
        forall|x: int, y: int|
            old(g).inb(x, y) ==> #[trigger] cell_of(*final(g), x, y) == phase_cell(late, cell_of(*old(g), x, y)),
{
    let ghost g0 = *g;
    proof {
        lemma_board_ok(g0);
    }
    let w = g.w;
    let h = g.h;
    let mut y: i32 = 0;
    while y < h
        invariant
            0 <= y <= h,
            w == g0.w,
            h == g0.h,
            board_ok(*g),
            g.w == g0.w,
            g.h == g0.h,
            g.entities == g0.entities,
            g.room_idx == g0.room_idx,
            g.core == g0.core,
            forall|xx: int, yy: int| g0.inb(xx, yy) ==> cell_ok(#[trigger] cell_of(g0, xx, yy)),
            forall|xx: int, yy: int|
                g0.inb(xx, yy) ==> #[trigger] cell_of(*g, xx, yy) == if yy < y {
                    phase_cell(late, cell_of(g0, xx, yy))
                } else {
                    cell_of(g0, xx, yy)
                },
        decreases h - y,
    {
        let mut x: i32 = 0;
        while x < w
            invariant
                0 <= x <= w,
                0 <= y < h,
                w == g0.w,
                h == g0.h,
                board_ok(*g),
                g.w == g0.w,
                g.h == g0.h,
                g.entities == g0.entities,
                g.room_idx == g0.room_idx,
                g.core == g0.core,
                forall|xx: int, yy: int| g0.inb(xx, yy) ==> cell_ok(#[trigger] cell_of(g0, xx, yy)),
                forall|xx: int, yy: int|
                    g0.inb(xx, yy) ==> #[trigger] cell_of(*g, xx, yy) == if yy < y || (yy == y && xx < x) {
                        phase_cell(late, cell_of(g0, xx, yy))
                    } else {
                        cell_of(g0, xx, yy)
                    },
            decreases w - x,
        {
            let t = g.tiles[y as usize][x as usize];
            let f = g.fire[y as usize][x as usize];
            let b = g.burn_t[y as usize][x as usize];
            proof {
                assert(cell_of(*g, x as int, y as int) == (t, f, b));
                assert(cell_ok(cell_of(g0, x as int, y as int)));
            }
            let c = phase_cell_exec(late, t, f, b);
            set_cell(g, x, y, c);
            x = x + 1;
        }
        y = y + 1;
    }
    proof {
        assert forall|xx: int, yy: int| g.inb(xx, yy) implies cell_ok(#[trigger] cell_of(*g, xx, yy)) by {
            assert(cell_ok(cell_of(g0, xx, yy)));
            assert(cell_of(*g, xx, yy) == phase_cell(late, cell_of(g0, xx, yy)));
        }
        lemma_board_ok(*g);
    }
}

} // verus!

verus! {

/// Spreads fire from a neighbour into `(x, y)`; off-board cells are ignored.
fn spread_at(g: &mut GameState, x: i32, y: i32)
    requires
        old(g).grids_ok(),
    ensures
        final(g).grids_ok(),
        final(g).w == old(g).w,
        final(g).h == old(g).h,
        final(g).entities == old(g).entities,
        final(g).room_idx == old(g).room_idx,
        final(g).core == old(g).core,
        forall|xx: int, yy: int|
            old(g).inb(xx, yy) ==> #[trigger] cell_of(*final(g), xx, yy) == if xx == x && yy == y {
                spread_step(cell_of(*old(g), xx, yy))
            } else {
                cell_of(*old(g), xx, yy)
            },
{
    let ghost g0 = *g;
    proof {
        lemma_board_ok(g0);
    }
    if in_bounds(g, x, y) {
        let t = g.tiles[y as usize][x as usize];
        let f = g.fire[y as usize][x as usize];
        let b = g.burn_t[y as usize][x as usize];
        proof {
            assert(cell_of(g0, x as int, y as int) == (t, f, b));
        }
        if t == Tile::Oil && f == 0 {
            set_cell(g, x, y, (t, FIRE_DUR, b));
        } else if t == Tile::Wood {
            set_cell(g, x, y, (Tile::WoodBurn, f, WOOD_BURN_TICKS));
        }
        proof {
            assert forall|xx: int, yy: int| g.inb(xx, yy) implies cell_ok(#[trigger] cell_of(*g, xx, yy)) by {
                assert(cell_ok(cell_of(g0, xx, yy)));
            }
            lemma_board_ok(*g);
        }
    }
}

/// King-neighbour offsets, row by row.
spec fn nb_off(j: int) -> (int, int) {
    seq![(-1int, -1int), (0, -1), (1, -1), (-1, 0), (1, 0), (-1, 1), (0, 1), (1, 1)][j]
}

/// `(x, y)` is one of the first `k` neighbours of `(fx, fy)`.
spec fn among(x: int, y: int, fx: int, fy: int, k: int) -> bool {
    exists|j: int| 0 <= j < k && #[trigger] nb_off(j) == (x - fx, y - fy)
}

proof fn lemma_among_all(x: int, y: int, fx: int, fy: int)
    ensures
        among(x, y, fx, fy, 8) <==> cheb_spec(x, y, fx, fy) == 1,
{
    if cheb_spec(x, y, fx, fy) == 1 {
        let dx = x - fx;
        let dy = y - fy;
        let j = if dy == -1 {
            dx + 1
        } else if dy == 0 {
            if dx == -1 {
                3int
            } else {
                4
            }
        } else {
            dx + 6
        };
        assert(nb_off(j) == (x - fx, y - fy));
    }
    if among(x, y, fx, fy, 8) {
        let j = choose|j: int| 0 <= j < 8 && #[trigger] nb_off(j) == (x - fx, y - fy);
        assert(0 <= j < 8);
    }
}

pub const NB_DX: [i32; 8] = [-1, 0, 1, -1, 1, -1, 0, 1];

pub const NB_DY: [i32; 8] = [-1, -1, -1, 0, 0, 1, 1, 1];

/// Spreads fire from `(fx, fy)` into its eight neighbours.
fn spread_from(g: &mut GameState, fx: i32, fy: i32)
    requires
        old(g).grids_ok(),
        coord_ok(fx as int),
        coord_ok(fy as int),
    ensures
        final(g).grids_ok(),
        final(g).w == old(g).w,
        final(g).h == old(g).h,
        final(g).entities == old(g).entities,
        final(g).room_idx == old(g).room_idx,
        final(g).core == old(g).core,
        forall|xx: int, yy: int|
            old(g).inb(xx, yy) ==> #[trigger] cell_of(*final(g), xx, yy) == if cheb_spec(xx, yy, fx as int, fy as int)
                == 1 {
                spread_step(cell_of(*old(g), xx, yy))
            } else {
                cell_of(*old(g), xx, yy)
            },
{
    let ghost g0 = *g;
    let dxs: [i32; 8] = NB_DX;
    let dys: [i32; 8] = NB_DY;
    proof {
        assert(dxs@ =~= seq![-1i32, 0i32, 1i32, -1i32, 1i32, -1i32, 0i32, 1i32]);
        assert(dys@ =~= seq![-1i32, -1i32, -1i32, 0i32, 0i32, 1i32, 1i32, 1i32]);
    }
    let mut k: usize = 0;
    while k < 8
        invariant
            k <= 8,
            dxs@ == seq![-1i32, 0i32, 1i32, -1i32, 1i32, -1i32, 0i32, 1i32],
            dys@ == seq![-1i32, -1i32, -1i32, 0i32, 0i32, 1i32, 1i32, 1i32],
            coord_ok(fx as int),
            coord_ok(fy as int),
            g.grids_ok(),
            g.w == g0.w,
            g.h == g0.h,
            g.entities == g0.entities,
            g.room_idx == g0.room_idx,
            g.core == g0.core,
            forall|xx: int, yy: int|
                g0.inb(xx, yy) ==> #[trigger] cell_of(*g, xx, yy) == if among(xx, yy, fx as int, fy as int, k as int) {
                    spread_step(cell_of(g0, xx, yy))
                } else {
                    cell_of(g0, xx, yy)
                },
        decreases 8 - k,
    {
        let ghost ga = *g;
        let x = fx + dxs[k];
        let y = fy + dys[k];
        proof {
            assert(nb_off(k as int) == (dxs@[k as int] as int, dys@[k as int] as int));
        }
        spread_at(g, x, y);
        proof {
            assert forall|xx: int, yy: int| g0.inb(xx, yy) implies #[trigger] cell_of(*g, xx, yy) == if among(
                xx,
                yy,
                fx as int,
                fy as int,
                k as int + 1,
            ) {
                spread_step(cell_of(g0, xx, yy))
            } else {
                cell_of(g0, xx, yy)
            } by {
                if xx == x && yy == y {
                    assert(nb_off(k as int) == (xx - fx, yy - fy));
                    assert(among(xx, yy, fx as int, fy as int, k as int + 1));
                } else {
                    if among(xx, yy, fx as int, fy as int, k as int + 1) {
                        let j = choose|j: int| 0 <= j < k + 1 && #[trigger] nb_off(j) == (xx - fx, yy - fy);
                        assert(j != k);
                        assert(among(xx, yy, fx as int, fy as int, k as int));
                    } else {
                        if among(xx, yy, fx as int, fy as int, k as int) {
                            let j = choose|j: int| 0 <= j < k && #[trigger] nb_off(j) == (xx - fx, yy - fy);
                            assert(0 <= j < k + 1);
                        }
                    }
                }
            }
        }
        k = k + 1;
    }
    proof {
        assert forall|xx: int, yy: int| g0.inb(xx, yy) implies #[trigger] cell_of(*g, xx, yy) == if cheb_spec(
            xx,
            yy,
            fx as int,
            fy as int,
        ) == 1 {
            spread_step(cell_of(g0, xx, yy))
        } else {
            cell_of(g0, xx, yy)
        } by {
            lemma_among_all(xx, yy, fx as int, fy as int);
        }
    }
}

} // verus!

verus! {

/// The lit list holds on-board burning cells only, and every on-board burning cell among
/// the first `k`.
proof fn lemma_lit_list(g: GameState, k: int)
    requires
        g.grids_ok(),
        0 <= k <= g.w * g.h,
    ensures
        forall|m: int|
            0 <= m < lit_list(g, k).len() ==> g.inb((#[trigger] lit_list(g, k)[m]).0 as int, lit_list(g, k)[m].1 as int)
                && lit_after_wood(g, lit_list(g, k)[m].0 as int, lit_list(g, k)[m].1 as int),
        forall|x: int, y: int|
            g.inb(x, y) && y * g.w + x < k && #[trigger] lit_after_wood(g, x, y) ==> lit_list(g, k).contains(
                (x as i32, y as i32),
            ),
    decreases k,
{
    if k > 0 {
        lemma_lit_list(g, k - 1);
        let w = g.w as int;
        let h = g.h as int;
        let prev = lit_list(g, k - 1);
        let cur = lit_list(g, k);
        let x = (k - 1) % w;
        let y = (k - 1) / w;
        assert(w > 0) by (nonlinear_arith)
            requires
                0 < k <= w * h,
                0 <= h,
        ;
        vstd::arithmetic::div_mod::lemma_fundamental_div_mod(k - 1, w);
        assert(0 <= x < w) by {
            vstd::arithmetic::div_mod::lemma_mod_bound(k - 1, w);
        }
        assert(0 <= y) by {
            vstd::arithmetic::div_mod::lemma_div_pos_is_pos(k - 1, w);
        }
        assert(y < h) by (nonlinear_arith)
            requires
                y * w + x == k - 1,
                0 <= x < w,
                0 <= y,
                k <= w * h,
        ;
        assert(y * w + x == k - 1) by (nonlinear_arith)
            requires
                k - 1 == w * y + x,
        ;
        assert forall|m: int|
            0 <= m < cur.len() implies g.inb((#[trigger] cur[m]).0 as int, cur[m].1 as int) && lit_after_wood(
            g,
            cur[m].0 as int,
            cur[m].1 as int,
        ) by {
            if m < prev.len() {
                assert(cur[m] == prev[m]);
            }
        }
        assert forall|xx: int, yy: int|
            g.inb(xx, yy) && yy * g.w + xx < k && #[trigger] lit_after_wood(g, xx, yy) implies cur.contains(
            (xx as i32, yy as i32),
        ) by {
            if yy * g.w + xx < k - 1 {
                let m = choose|m: int| 0 <= m < prev.len() && prev[m] == (xx as i32, yy as i32);
                assert(cur[m] == prev[m]);
            } else {
                lemma_cell_index(xx, yy, w, h);
                assert(xx == x && yy == y);
                assert(cur[cur.len() - 1] == (xx as i32, yy as i32));
            }
        }
    }
}

/// Some listed cell is a king neighbour of `(x, y)`.
spec fn adj_any(x: int, y: int, cells: Seq<(i32, i32)>) -> bool {
    exists|m: int| 0 <= m < cells.len() && #[trigger] cheb_spec(x, y, cells[m].0 as int, cells[m].1 as int) == 1
}

/// One fire tick: burning wooden walls count down and collapse into burning floor; every
/// burning cell (row by row) hurts the first alive unit on it by `FIRE_DOT` (the mage
/// included) and spreads to neighbouring unlit oil and wooden walls; then every fire
/// burns down by one and oil whose fire went out turns back into floor.
pub fn fire_tick(g: &mut GameState, ctx: &mut StepCtx)
    requires
        old(g).wf(),
        old(g).has_mage() || old(ctx).tiers.tier_of(Spell::Haste) < 2,
    ensures
        final(g).wf(),
        final(g).w == old(g).w,
        final(g).h == old(g).h,
        final(g).room_idx == old(g).room_idx,
        final(g).core == old(g).core,
        forall|x: int, y: int| old(g).inb(x, y) ==> #[trigger] cell_of(*final(g), x, y) == tick_cell(*old(g), x, y),
        final(g).entities@ == burn_all(
            old(g).entities@,
            lit_list(*old(g), old(g).w * old(g).h),
            old(ctx).tiers,
        ).0,
        final(ctx).events@ == old(ctx).events@ + burn_all(
            old(g).entities@,
            lit_list(*old(g), old(g).w * old(g).h),
            old(ctx).tiers,
        ).1,
        final(ctx).mage_hurt == (old(ctx).mage_hurt || burn_all(
            old(g).entities@,
            lit_list(*old(g), old(g).w * old(g).h),
            old(ctx).tiers,
        ).2),
        final(ctx).tiers == old(ctx).tiers,
        final(g).has_mage() == old(g).has_mage(),
        final(g).mage_index() == old(g).mage_index(),
{
    let ghost g0 = *g;
    let ghost ev0 = ctx.events@;
    let ghost hurt0 = ctx.mage_hurt;
    let ghost tiers = ctx.tiers;
    map_cells(g, false);
    let ghost g1 = *g;
    proof {
        lemma_grids_same(*g, *g);
    }
    let w = g.w;
    let h = g.h;
    let mut active: Vec<(i32, i32)> = Vec::new();
    let mut y: i32 = 0;
    while y < h
        invariant
            0 <= y <= h,
            w == g0.w,
            h == g0.h,
            g0.grids_ok(),
            *g == g1,
            g1.w == g0.w,
            g1.h == g0.h,
            g1.grids_ok(),
            forall|xx: int, yy: int|
                g0.inb(xx, yy) ==> #[trigger] cell_of(g1, xx, yy) == phase_cell(false, cell_of(g0, xx, yy)),
            active@ == lit_list(g0, y * w),
        decreases h - y,
    {
        let mut x: i32 = 0;
        while x < w
            invariant
                0 <= x <= w,
                0 <= y < h,
                w == g0.w,
                h == g0.h,
                g0.grids_ok(),
                *g == g1,
                g1.w == g0.w,
                g1.h == g0.h,
                g1.grids_ok(),
                forall|xx: int, yy: int|
                    g0.inb(xx, yy) ==> #[trigger] cell_of(g1, xx, yy) == phase_cell(false, cell_of(g0, xx, yy)),
                active@ == lit_list(g0, y * w + x),
            decreases w - x,
        {
            proof {
                lemma_cell_index(x as int, y as int, w as int, h as int);
                assert(cell_of(g1, x as int, y as int) == wood_step(cell_of(g0, x as int, y as int)));
            }
            if g.fire[y as usize][x as usize] > 0 {
                active.push((x, y));
            }
            x = x + 1;
        }
        proof {
            assert(y * w + w == (y + 1) * w) by (nonlinear_arith);
        }
        y = y + 1;
    }
    proof {
        assert(y * w == g0.w * g0.h) by (nonlinear_arith)
            requires
                y == g0.h,
                w == g0.w,
        ;
        lemma_lit_list(g0, g0.w * g0.h);
    }
    let mut j: usize = 0;
    while j < active.len()
        invariant
            j <= active@.len(),
            active@ == lit_list(g0, g0.w * g0.h),
            forall|m: int|
                0 <= m < active@.len() ==> g0.inb((#[trigger] active@[m]).0 as int, active@[m].1 as int),
            g0.wf(),
            g.wf(),
            g.w == g0.w,
            g.h == g0.h,
            g.room_idx == g0.room_idx,
            g.core == g0.core,
            g1.w == g0.w,
            g1.h == g0.h,
            g.has_mage() == g0.has_mage(),
            g.mage_index() == g0.mage_index(),
            ctx.tiers == tiers,
            g0.has_mage() || tiers.tier_of(Spell::Haste) < 2,
            g.entities@ == burn_all(g0.entities@, active@.take(j as int), tiers).0,
            ctx.events@ == ev0 + burn_all(g0.entities@, active@.take(j as int), tiers).1,
            ctx.mage_hurt == (hurt0 || burn_all(g0.entities@, active@.take(j as int), tiers).2),
            forall|xx: int, yy: int|
                g0.inb(xx, yy) ==> #[trigger] cell_of(*g, xx, yy) == if adj_any(xx, yy, active@.take(j as int)) {
                    spread_step(cell_of(g1, xx, yy))
                } else {
                    cell_of(g1, xx, yy)
                },
        decreases active@.len() - j,
    {
        let (fx, fy) = active[j];
        let ghost gs = *g;
        let ghost cells = active@.take(j as int + 1);
        proof {
            assert(cells.drop_last() =~= active@.take(j as int));
            assert(cells.last() == (fx, fy));
        }
        match ent_index_at(g, fx, fy) {
            Some(idx) => {
                proof {
                    lemma_first_index(g.entities@, occupies(fx as int, fy as int));
                }
                deal_damage(g, idx, FIRE_DOT, ctx);
            },
            None => {},
        }
        let ghost gd = *g;
        spread_from(g, fx, fy);
        proof {
            assert forall|xx: int, yy: int| g0.inb(xx, yy) implies #[trigger] cell_of(*g, xx, yy) == if adj_any(
                xx,
                yy,
                cells,
            ) {
                spread_step(cell_of(g1, xx, yy))
            } else {
                cell_of(g1, xx, yy)
            } by {
                let prev = active@.take(j as int);
                assert(cell_of(gd, xx, yy) == cell_of(gs, xx, yy));
                assert(spread_step(spread_step(cell_of(g1, xx, yy))) == spread_step(cell_of(g1, xx, yy)));
                if adj_any(xx, yy, cells) {
                    let m = choose|m: int|
                        0 <= m < cells.len() && #[trigger] cheb_spec(xx, yy, cells[m].0 as int, cells[m].1 as int)
                            == 1;
                    if m < j {
                        assert(prev[m] == cells[m]);
                        assert(adj_any(xx, yy, prev));
                    }
                } else {
                    if adj_any(xx, yy, prev) {
                        let m = choose|m: int|
                            0 <= m < prev.len() && #[trigger] cheb_spec(xx, yy, prev[m].0 as int, prev[m].1 as int)
                                == 1;
                        assert(cells[m] == prev[m]);
                        assert(false);
                    }
                    assert(cheb_spec(xx, yy, fx as int, fy as int) != 1) by {
                        if cheb_spec(xx, yy, fx as int, fy as int) == 1 {
                            assert(cells[j as int] == (fx, fy));
                        }
                    }
                }
            }
        }
        j = j + 1;
    }
    proof {
        assert(active@.take(j as int) =~= active@);
    }
    let ghost g3 = *g;
    map_cells(g, true);
    proof {
        lemma_grids_same(*g, *g);
        assert forall|x: int, y: int| g0.inb(x, y) implies #[trigger] cell_of(*g, x, y) == tick_cell(g0, x, y) by {
            assert(cell_of(g1, x, y) == wood_step(cell_of(g0, x, y)));
            if near_lit(g0, x, y) {
                let (nx, ny) = choose|nx: int, ny: int|
                    #[trigger] g0.inb(nx, ny) && cheb_spec(x, y, nx, ny) == 1 && lit_after_wood(g0, nx, ny);
                lemma_cell_index(nx, ny, g0.w as int, g0.h as int);
                let m = choose|m: int| 0 <= m < active@.len() && active@[m] == (nx as i32, ny as i32);
                assert(cheb_spec(x, y, active@[m].0 as int, active@[m].1 as int) == 1);
                assert(adj_any(x, y, active@));
            }
            if adj_any(x, y, active@) {
                let m = choose|m: int|
                    0 <= m < active@.len() && #[trigger] cheb_spec(x, y, active@[m].0 as int, active@[m].1 as int)
                        == 1;
                assert(g0.inb(active@[m].0 as int, active@[m].1 as int));
                assert(near_lit(g0, x, y));
            }
        }
    }
}

} // verus!

verus! {

/// The charged fire blast on one cell: oil, floor and spikes catch fire; a wooden wall
/// is set alight; other cells are untouched.
pub open spec fn blast_step(c: (Tile, i32, i32)) -> (Tile, i32, i32) {
    if c.0 == Tile::Oil || c.0 == Tile::Floor || c.0 == Tile::Spike {
        (c.0, FIRE_DUR, c.2)
    } else if c.0 == Tile::Wood {
        (Tile::WoodBurn, c.1, WOOD_BURN_TICKS)
    } else {
        c
    }
}

/// Applies the fire blast to the on-board cell `(x, y)`.
pub fn blast_cell(g: &mut GameState, x: i32, y: i32)
    requires
        old(g).grids_ok(),
        old(g).inb(x as int, y as int),
    ensures
        final(g).grids_ok(),
        final(g).w == old(g).w,
        final(g).h == old(g).h,
        final(g).entities == old(g).entities,
        final(g).room_idx == old(g).room_idx,
        final(g).core == old(g).core,
        forall|xx: int, yy: int|
            old(g).inb(xx, yy) ==> #[trigger] cell_of(*final(g), xx, yy) == if xx == x && yy == y {
                blast_step(cell_of(*old(g), xx, yy))
            } else {
                cell_of(*old(g), xx, yy)
            },
{
    let ghost g0 = *g;
    proof {
        lemma_board_ok(g0);
    }
    let t = g.tiles[y as usize][x as usize];
    let f = g.fire[y as usize][x as usize];
    let b = g.burn_t[y as usize][x as usize];
    proof {
        assert(cell_of(g0, x as int, y as int) == (t, f, b));
    }
    match t {
        Tile::Oil | Tile::Floor | Tile::Spike => set_cell(g, x, y, (t, FIRE_DUR, b)),
        Tile::Wood => set_cell(g, x, y, (Tile::WoodBurn, f, WOOD_BURN_TICKS)),
        _ => {},
    }
    proof {
        assert forall|xx: int, yy: int| g.inb(xx, yy) implies cell_ok(#[trigger] cell_of(*g, xx, yy)) by {
            assert(cell_ok(cell_of(g0, xx, yy)));
        }
        lemma_board_ok(*g);
    }
}

} // verus!

verus! {

/// Fire damage never raises hit points.
pub proof fn lemma_burn_hp(s: Seq<Entity>, cells: Seq<(i32, i32)>, t: TierTable)
    ensures
        burn_all(s, cells, t).0.len() == s.len(),
        forall|i: int| 0 <= i < s.len() ==> (#[trigger] burn_all(s, cells, t).0[i]).hp <= s[i].hp,
    decreases cells.len(),
{
    if cells.len() > 0 {
        lemma_burn_hp(s, cells.drop_last(), t);
        let p = burn_all(s, cells.drop_last(), t);
        let c = cells.last();
        lemma_first_index(p.0, occupies(c.0 as int, c.1 as int));
        match first_index(p.0, occupies(c.0 as int, c.1 as int)) {
            Some(k) => {
                lemma_first_index(p.0, crate::state::mage_pred());
                let q = damage_ents(p.0, k, FIRE_DOT, t);
                assert forall|i: int| 0 <= i < s.len() implies (#[trigger] q[i]).hp <= s[i].hp by {
                    assert(p.0[i].hp <= s[i].hp);
                }
            },
            None => {},
        }
    }
}

/// Fire damage keeps every entity's time, kind and id.
pub proof fn lemma_burn_times(s: Seq<Entity>, cells: Seq<(i32, i32)>, t: TierTable)
    ensures
        crate::state::times_kept(s, burn_all(s, cells, t).0),
        crate::state::frame_kept(s, burn_all(s, cells, t).0),
    decreases cells.len(),
{
    if cells.len() > 0 {
        lemma_burn_times(s, cells.drop_last(), t);
        let p = burn_all(s, cells.drop_last(), t);
        let c = cells.last();
        lemma_first_index(p.0, occupies(c.0 as int, c.1 as int));
        match first_index(p.0, occupies(c.0 as int, c.1 as int)) {
            Some(i) => {
                crate::damage::lemma_damage_times(p.0, i, FIRE_DOT, t);
                crate::state::lemma_times_kept_trans(s, p.0, damage_ents(p.0, i, FIRE_DOT, t));
                crate::state::lemma_frame_kept_trans(s, p.0, damage_ents(p.0, i, FIRE_DOT, t));
            },
            None => {},
        }
    }
}

} // verus!
