//! Enemy behaviour, fully deterministic: imps close in and strike, rune eyes shoot
//! along a clear line of sight, the golem alternates announcing and landing a slam.
use crate::config::{BOSS_SLAM, EYE_DMG, EYE_RANGE, IMP_DMG};
use crate::damage::{damage_ents, damage_events, deal_damage, StepCtx};
use crate::events::Event;
use crate::grid::{
    cells_in_bounds, cheb, cheb_spec, coord_ok, ent_index_at, lemma_cells_in_bounds, los, los_spec, opt_int,
    slam_area, slam_offsets, walkable, walkable_spec,
};
use crate::movement::{lemma_ents_kinds, lemma_moved_to, move_entity, moved_event, moved_to};
use crate::state::{
    ent_ok, is_alive_enemy, lemma_count_same, lemma_first_index, lemma_grids_same, mage_pred, Entity, GameState, Kind,
    Tile,
};
use crate::terrain::{extends, lemma_extends_refl};
use vstd::prelude::*;

verus! {

/// Offsets of the eight neighbours, row by row (the order in which steps are tried).
pub open spec fn step_off(j: int) -> (int, int) {
    seq![(-1int, -1int), (0, -1), (1, -1), (-1, 0), (1, 0), (-1, 1), (0, 1), (1, 1)][j]
}

/// An enemy may step onto the cell: walkable, empty, no spikes, no fire.
pub open spec fn step_ok(g: GameState, x: int, y: int) -> bool {
    walkable_spec(g, x, y) && g.ent_at(x, y) is None && g.tile(x, y) != Tile::Spike && g.fire_at(x, y) <= 0
}

/// Best step among the first `k` neighbours of `(ex, ey)` towards `(mx, my)`, with its
/// distance: a neighbour is taken only when strictly closer than the best so far (so
/// ties keep the one found first), starting from the current distance.
pub open spec fn toward_scan(g: GameState, ex: int, ey: int, mx: int, my: int, k: int) -> (Option<(int, int)>, int)
    decreases k,
{
    if k <= 0 {
        (None, cheb_spec(ex, ey, mx, my))
    } else {
        let p = toward_scan(g, ex, ey, mx, my, k - 1);
        let x = ex + step_off(k - 1).0;
        let y = ey + step_off(k - 1).1;
        if step_ok(g, x, y) && cheb_spec(x, y, mx, my) < p.1 {
            (Some((x, y)), cheb_spec(x, y, mx, my))
        } else {
            p
        }
    }
}

/// The cell entity `idx` steps to when it walks towards the mage, if any.
pub open spec fn toward_cell(g: GameState, idx: int) -> Option<(int, int)> {
    let e = g.entities@[idx];
    let m = g.mage_spec();
    toward_scan(g, e.x as int, e.y as int, m.x as int, m.y as int, 8).0
}

/// A board where every listed step cell lies on the board.
proof fn lemma_toward_scan(g: GameState, ex: int, ey: int, mx: int, my: int, k: int)
    ensures
        toward_scan(g, ex, ey, mx, my, k).0 matches Some(c) ==> walkable_spec(g, c.0, c.1) && g.ent_at(c.0, c.1) is None,
    decreases k,
{
    if k > 0 {
        lemma_toward_scan(g, ex, ey, mx, my, k - 1);
    }
}

pub const STEP_DX: [i32; 8] = [-1, 0, 1, -1, 1, -1, 0, 1];

pub const STEP_DY: [i32; 8] = [-1, -1, -1, 0, 0, 1, 1, 1];

/// Index of the mage.
fn mage_index(g: &GameState) -> (r: usize)
    requires
        g.has_mage(),
    ensures
        r == g.mage_index(),
        r < g.entities@.len(),
{
    g.mage_idx()
}

/// Walk entity `idx` one cell towards the mage, avoiding walls, units, spikes and fire,
/// and only onto a strictly closer cell (ties keep the first found, row by row).
fn step_toward(g: &mut GameState, idx: usize, ctx: &mut StepCtx)
    requires
        old(g).wf(),
        old(g).has_mage(),
        idx < old(g).entities@.len(),
    ensures
        final(g).entities@ == match toward_cell(*old(g), idx as int) {
            Some(c) => moved_to(old(g).entities@, idx as int, c.0, c.1),
            None => old(g).entities@,
        },
        final(ctx).events@ == match toward_cell(*old(g), idx as int) {
            Some(c) => old(ctx).events@.push(moved_event(old(g).entities@, idx as int, c.0, c.1)),
            None => old(ctx).events@,
        },
        final(ctx).mage_hurt == old(ctx).mage_hurt,
        final(ctx).tiers == old(ctx).tiers,
        final(g).w == old(g).w,
        final(g).h == old(g).h,
        final(g).tiles == old(g).tiles,
        final(g).fire == old(g).fire,
        final(g).burn_t == old(g).burn_t,
        final(g).room_idx == old(g).room_idx,
        final(g).core == old(g).core,
        final(g).wf(),
        final(g).has_mage(),
        final(g).mage_index() == old(g).mage_index(),
{
    let ghost g0 = *g;
    proof {
        lemma_first_index(g.entities@, mage_pred());
        assert(ent_ok(g.entities@[g.mage_index()]));
        assert(ent_ok(g.entities@[idx as int]));
    }
    let (mx, my) = {
        let m = g.mage();
        (m.x, m.y)
    };
    let (ex, ey) = (g.entities[idx].x, g.entities[idx].y);
    let dxs: [i32; 8] = STEP_DX;
    let dys: [i32; 8] = STEP_DY;
    proof {
        assert(dxs@ =~= seq![-1i32, 0i32, 1i32, -1i32, 1i32, -1i32, 0i32, 1i32]);
        assert(dys@ =~= seq![-1i32, -1i32, -1i32, 0i32, 0i32, 1i32, 1i32, 1i32]);
    }
    let mut best: Option<(i32, i32)> = None;
    let mut bd = cheb(ex, ey, mx, my);
    let mut k: usize = 0;
    while k < 8
        invariant
            k <= 8,
            *g == g0,
            g0.wf(),
            dxs@ == seq![-1i32, 0i32, 1i32, -1i32, 1i32, -1i32, 0i32, 1i32],
            dys@ == seq![-1i32, -1i32, -1i32, 0i32, 0i32, 1i32, 1i32, 1i32],
            coord_ok(ex as int),
            coord_ok(ey as int),
            coord_ok(mx as int),
            coord_ok(my as int),
            bd == toward_scan(g0, ex as int, ey as int, mx as int, my as int, k as int).1,
            match best {
                Some(b) => toward_scan(g0, ex as int, ey as int, mx as int, my as int, k as int).0 == Some(
                    (b.0 as int, b.1 as int),
                ),
                None => toward_scan(g0, ex as int, ey as int, mx as int, my as int, k as int).0 is None,
            },
        decreases 8 - k,
    {
        let x = ex + dxs[k];
        let y = ey + dys[k];
        proof {
            assert(step_off(k as int) == (dxs@[k as int] as int, dys@[k as int] as int));
        }
        if walkable(g, x, y) && ent_index_at(g, x, y).is_none() {
            if g.tiles[y as usize][x as usize] != Tile::Spike && g.fire[y as usize][x as usize] <= 0 {
                let d = cheb(x, y, mx, my);
                if d < bd {
                    bd = d;
                    best = Some((x, y));
                }
            }
        }
        k = k + 1;
    }
    proof {
        lemma_toward_scan(g0, ex as int, ey as int, mx as int, my as int, 8);
    }
    match best {
        Some((bx, by)) => {
            move_entity(g, idx, bx, by, ctx);
        },
        None => {},
    }
}

} // verus!

verus! {

/// The slam announced by the golem `e` covers `(x, y)`.
pub open spec fn slam_covers(e: Entity, x: i32, y: i32) -> bool {
    match e.slam {
        Some(cells) => cells@.contains((x, y)),
        None => false,
    }
}

/// The enemy's turn hits the mage.
pub open spec fn strikes_mage(g: GameState, idx: int) -> bool {
    let e = g.entities@[idx];
    let m = g.mage_spec();
    let d = cheb_spec(e.x as int, e.y as int, m.x as int, m.y as int);
    e.stun == 0 && match e.kind {
        Kind::Imp => d == 1,
        Kind::Eye => d <= EYE_RANGE && los_spec(g, e.x as int, e.y as int, m.x as int, m.y as int),
        Kind::Boss => e.pending_slam && slam_covers(e, m.x, m.y),
        Kind::Mage => false,
    }
}

/// Entities after walking entity `idx` towards the mage.
pub open spec fn step_ents(g: GameState, idx: int) -> Seq<Entity> {
    match toward_cell(g, idx) {
        Some(c) => moved_to(g.entities@, idx, c.0, c.1),
        None => g.entities@,
    }
}

pub open spec fn step_events(g: GameState, idx: int) -> Seq<Event> {
    match toward_cell(g, idx) {
        Some(c) => seq![moved_event(g.entities@, idx, c.0, c.1)],
        None => Seq::empty(),
    }
}

/// What one enemy turn does to the entities and which events it reports, for all but
/// the golem's announcing turn (whose slam cells are stated separately).
pub open spec fn act_result(g: GameState, idx: int, t: crate::damage::TierTable) -> (Seq<Entity>, Seq<Event>) {
    let s = g.entities@;
    let e = s[idx];
    let m = g.mage_spec();
    let mi = g.mage_index();
    if e.stun > 0 {
        (s.update(idx, Entity { stun: (e.stun - 1) as u32, ..e }), Seq::empty())
    } else {
        match e.kind {
            Kind::Imp => if cheb_spec(e.x as int, e.y as int, m.x as int, m.y as int) == 1 {
                (damage_ents(s, mi, IMP_DMG, t), damage_events(s, mi, IMP_DMG, t))
            } else {
                (step_ents(g, idx), step_events(g, idx))
            },
            Kind::Eye => if cheb_spec(e.x as int, e.y as int, m.x as int, m.y as int) <= EYE_RANGE && los_spec(
                g,
                e.x as int,
                e.y as int,
                m.x as int,
                m.y as int,
            ) {
                (damage_ents(s, mi, EYE_DMG, t), damage_events(s, mi, EYE_DMG, t))
            } else {
                (step_ents(g, idx), step_events(g, idx))
            },
            Kind::Boss => {
                let s1 = s.update(idx, Entity { exhausted: false, ..e });
                if e.pending_slam {
                    let s2 = if slam_covers(e, m.x, m.y) {
                        damage_ents(s1, mi, BOSS_SLAM, t)
                    } else {
                        s1
                    };
                    let ev = if slam_covers(e, m.x, m.y) {
                        damage_events(s1, mi, BOSS_SLAM, t)
                    } else {
                        Seq::empty()
                    };
                    (s2.update(idx, Entity { slam: None, pending_slam: false, exhausted: true, ..s2[idx] }), ev)
                } else {
                    (s1, Seq::empty())
                }
            },
            Kind::Mage => (s, Seq::empty()),
        }
    }
}

/// The announcing turn of the golem: it sheds its overheat and announces a slam on the
/// on-board 3x3 block around the mage; everything else is kept.
pub open spec fn announces(a: GameState, b: GameState, idx: int) -> bool {
    let e = a.entities@[idx];
    let m = a.mage_spec();
    &&& b.entities@.len() == a.entities@.len()
    &&& forall|i: int| 0 <= i < a.entities@.len() && i != idx ==> #[trigger] b.entities@[i] == a.entities@[i]
    &&& b.entities@[idx] == (Entity { slam: b.entities@[idx].slam, pending_slam: true, exhausted: false, ..e })
    &&& b.entities@[idx].slam matches Some(cells) && cells@ == cells_in_bounds(a, m.x as int, m.y as int, slam_offsets())
}

/// Entities and events after the turn of enemy `idx`.
pub open spec fn act_post(a: GameState, b: GameState, idx: int, t: crate::damage::TierTable, ev0: Seq<Event>, ev1: Seq<Event>) -> bool {
    let e = a.entities@[idx];
    if e.stun == 0 && e.kind == Kind::Boss && !e.pending_slam {
        announces(a, b, idx) && ev1 == ev0
    } else {
        b.entities@ == act_result(a, idx, t).0 && ev1 == ev0 + act_result(a, idx, t).1
    }
}

/// One turn of the enemy `idx`. A stunned enemy loses one stun and does nothing else.
/// An imp next to the mage strikes it, else steps closer; a rune eye within range and
/// with a clear line of sight shoots the mage, else steps closer. The golem first sheds
/// its overheat; if a slam is announced it lands (hurting the mage only when standing
/// on an announced cell) and the golem overheats; otherwise it announces a slam on the
/// 3x3 block around the mage.
pub fn enemy_act(g: &mut GameState, idx: usize, ctx: &mut StepCtx)
    requires
        old(g).wf(),
        old(g).has_mage(),
        idx < old(g).entities@.len(),
    ensures
        final(g).wf(),
        final(g).w == old(g).w,
        final(g).h == old(g).h,
        final(g).tiles == old(g).tiles,
        final(g).fire == old(g).fire,
        final(g).burn_t == old(g).burn_t,
        final(g).room_idx == old(g).room_idx,
        final(g).core == old(g).core,
        final(g).has_mage(),
        final(g).mage_index() == old(g).mage_index(),
        final(ctx).tiers == old(ctx).tiers,
        act_post(*old(g), *final(g), idx as int, old(ctx).tiers, old(ctx).events@, final(ctx).events@),
        final(ctx).mage_hurt == (old(ctx).mage_hurt || strikes_mage(*old(g), idx as int)),
        crate::state::times_kept(old(g).entities@, final(g).entities@),
        forall|i: int|
            0 <= i < old(g).entities@.len() && i != old(g).mage_index() ==> (#[trigger] final(g).entities@[i]).hp
                == old(g).entities@[i].hp,
{
    let ghost g0 = *g;
    let ghost e0 = ctx.events@;
    act_once(g, idx, ctx);
    proof {
        lemma_act_times(g0, *g, idx as int, ctx.tiers, e0, ctx.events@);
        lemma_act_spares(g0, *g, idx as int, ctx.tiers, e0, ctx.events@);
    }
}

/// The body of `enemy_act`.
fn act_once(g: &mut GameState, idx: usize, ctx: &mut StepCtx)
    requires
        old(g).wf(),
        old(g).has_mage(),
        idx < old(g).entities@.len(),
    ensures
        final(g).wf(),
        final(g).w == old(g).w,
        final(g).h == old(g).h,
        final(g).tiles == old(g).tiles,
        final(g).fire == old(g).fire,
        final(g).burn_t == old(g).burn_t,
        final(g).room_idx == old(g).room_idx,
        final(g).core == old(g).core,
        final(g).has_mage(),
        final(g).mage_index() == old(g).mage_index(),
        final(ctx).tiers == old(ctx).tiers,
        act_post(*old(g), *final(g), idx as int, old(ctx).tiers, old(ctx).events@, final(ctx).events@),
        final(ctx).mage_hurt == (old(ctx).mage_hurt || strikes_mage(*old(g), idx as int)),
{
    let ghost g0 = *g;
    proof {
        lemma_first_index(g.entities@, mage_pred());
        assert(ent_ok(g.entities@[g.mage_index()]));
        assert(ent_ok(g.entities@[idx as int]));
    }
    if g.entities[idx].stun > 0 {
        g.entities[idx].stun = g.entities[idx].stun - 1;
        proof {
            lemma_frame_keep(g0, *g, idx as int);
            assert(g.entities@ =~= act_result(g0, idx as int, ctx.tiers).0);
            assert(ctx.events@ =~= old(ctx).events@ + act_result(g0, idx as int, ctx.tiers).1);
        }
        return;
    }
    let mi = mage_index(g);
    let (mx, my) = (g.entities[mi].x, g.entities[mi].y);
    let (ex, ey) = (g.entities[idx].x, g.entities[idx].y);
    match g.entities[idx].kind {
        Kind::Imp => {
            if cheb(ex, ey, mx, my) == 1 {
                deal_damage(g, mi, IMP_DMG, ctx);
            } else {
                step_toward(g, idx, ctx);
                proof {
                    assert(ctx.events@ =~= old(ctx).events@ + step_events(g0, idx as int));
                }
            }
        },
        Kind::Eye => {
            if cheb(ex, ey, mx, my) <= EYE_RANGE && los(g, ex, ey, mx, my) {
                deal_damage(g, mi, EYE_DMG, ctx);
            } else {
                step_toward(g, idx, ctx);
                proof {
                    assert(ctx.events@ =~= old(ctx).events@ + step_events(g0, idx as int));
                }
            }
        },
        Kind::Boss => {
            g.entities[idx].exhausted = false;
            let ghost g1 = *g;
            proof {
                lemma_frame_keep(g0, g1, idx as int);
            }
            if g.entities[idx].pending_slam {
                let hit = match &g.entities[idx].slam {
                    Some(cells) => contains_cell(cells, mx, my),
                    None => false,
                };
                if hit {
                    deal_damage(g, mi, BOSS_SLAM, ctx);
                } else {
                    proof {
                        assert(ctx.events@ =~= old(ctx).events@ + Seq::<Event>::empty());
                    }
                }
                let ghost g2 = *g;
                g.entities[idx].slam = None;
                g.entities[idx].pending_slam = false;
                g.entities[idx].exhausted = true;
                proof {
                    lemma_frame_keep(g2, *g, idx as int);
                    assert(g.entities@ =~= act_result(g0, idx as int, ctx.tiers).0);
                    assert(act_post(g0, *g, idx as int, ctx.tiers, old(ctx).events@, ctx.events@));
                }
            } else {
                let cells = slam_area(g, mx, my);
                g.entities[idx].slam = Some(cells);
                g.entities[idx].pending_slam = true;
                proof {
                    lemma_frame_keep(g1, *g, idx as int);
                    crate::grid::lemma_cells_same_dims(g1, g0, mx as int, my as int, slam_offsets());
                    assert(act_post(g0, *g, idx as int, ctx.tiers, old(ctx).events@, ctx.events@));
                }
            }
        },
        Kind::Mage => {
            proof {
                assert(ctx.events@ =~= old(ctx).events@ + Seq::<Event>::empty());
            }
        },
    }
}

/// Whether `(x, y)` is among `cells`.
fn contains_cell(cells: &Vec<(i32, i32)>, x: i32, y: i32) -> (r: bool)
    ensures
        r == cells@.contains((x, y)),
{
    let mut i: usize = 0;
    while i < cells.len()
        invariant
            i <= cells@.len(),
            forall|j: int| 0 <= j < i ==> cells@[j] != (x, y),
        decreases cells@.len() - i,
    {
        let (cx, cy) = cells[i];
        if cx == x && cy == y {
            return true;
        }
        i = i + 1;
    }
    false
}

/// Changing fields of entity `idx` other than hit points, kind and position keeps the
/// invariants and the board.
pub proof fn lemma_frame_keep(a: GameState, b: GameState, idx: int)
    requires
        a.wf(),
        0 <= idx < a.entities@.len(),
        b.entities@.len() == a.entities@.len(),
        forall|i: int| 0 <= i < a.entities@.len() && i != idx ==> #[trigger] b.entities@[i] == a.entities@[i],
        b.entities@[idx].hp == a.entities@[idx].hp,
        b.entities@[idx].maxhp == a.entities@[idx].maxhp,
        b.entities@[idx].kind == a.entities@[idx].kind,
        b.entities@[idx].x == a.entities@[idx].x,
        b.entities@[idx].y == a.entities@[idx].y,
        b.entities@[idx].haste_turns == a.entities@[idx].haste_turns,
        b.w == a.w,
        b.h == a.h,
        b.tiles == a.tiles,
        b.fire == a.fire,
        b.burn_t == a.burn_t,
    ensures
        b.wf(),
        b.has_mage() == a.has_mage(),
        b.mage_index() == a.mage_index(),
{
    lemma_ents_kinds(a.entities@, b.entities@);
    assert forall|i: int| 0 <= i < a.entities@.len() implies is_alive_enemy(#[trigger] a.entities@[i])
        == is_alive_enemy(b.entities@[i]) by {}
    lemma_count_same(a.entities@, b.entities@);
    assert forall|i: int| 0 <= i < b.entities@.len() implies ent_ok(#[trigger] b.entities@[i]) by {
        assert(ent_ok(a.entities@[i]));
    }
    lemma_grids_same(b, a);
    lemma_first_index(a.entities@, mage_pred());
}

} // verus!

verus! {

/// An enemy turn keeps every entity's time, kind and id.
pub proof fn lemma_act_times(a: GameState, b: GameState, idx: int, t: crate::damage::TierTable, ev0: Seq<Event>, ev1: Seq<Event>)
    requires
        a.has_mage(),
        0 <= idx < a.entities@.len(),
        act_post(a, b, idx, t, ev0, ev1),
    ensures
        crate::state::times_kept(a.entities@, b.entities@),
        crate::state::frame_kept(a.entities@, b.entities@),
{
    let s = a.entities@;
    let e = s[idx];
    lemma_first_index(s, mage_pred());
    let mi = a.mage_index();
    crate::damage::lemma_damage_times(s, mi, IMP_DMG, t);
    crate::damage::lemma_damage_times(s, mi, EYE_DMG, t);
    let s1 = s.update(idx, Entity { exhausted: false, ..e });
    crate::damage::lemma_damage_times(s1, mi, BOSS_SLAM, t);
    crate::state::lemma_times_kept_trans(s, s1, damage_ents(s1, mi, BOSS_SLAM, t));
}

} // verus!

verus! {

/// An enemy turn hurts nobody but the mage.
pub proof fn lemma_act_spares(a: GameState, b: GameState, idx: int, t: crate::damage::TierTable, ev0: Seq<Event>, ev1: Seq<Event>)
    requires
        a.has_mage(),
        0 <= idx < a.entities@.len(),
        act_post(a, b, idx, t, ev0, ev1),
    ensures
        forall|i: int| 0 <= i < a.entities@.len() && i != a.mage_index() ==> (#[trigger] b.entities@[i]).hp == a.entities@[i].hp,
{
    let s = a.entities@;
    let e = s[idx];
    lemma_first_index(s, mage_pred());
    let mi = a.mage_index();
    let s1 = s.update(idx, Entity { exhausted: false, ..e });
    crate::damage::lemma_damage_others(s, mi, IMP_DMG, t);
    crate::damage::lemma_damage_others(s, mi, EYE_DMG, t);
    crate::damage::lemma_damage_others(s1, mi, BOSS_SLAM, t);
}

} // verus!

verus! {

proof fn lemma_toward_near(g: GameState, ex: int, ey: int, mx: int, my: int, k: int)
    requires
        k <= 8,
    ensures
        toward_scan(g, ex, ey, mx, my, k).0 matches Some(c) ==> cheb_spec(c.0, c.1, ex, ey) <= 1,
    decreases k,
{
    if k > 0 {
        lemma_toward_near(g, ex, ey, mx, my, k - 1);
        let j = k - 1;
        assert(-1 <= step_off(j).0 <= 1 && -1 <= step_off(j).1 <= 1) by {
            if j == 0 {
            } else if j == 1 {
            } else if j == 2 {
            } else if j == 3 {
            } else if j == 4 {
            } else if j == 5 {
            } else if j == 6 {
            } else {
            }
        }
    }
}

/// Damage to the mage moves nobody.
proof fn lemma_damage_in_place(s: Seq<Entity>, mi: int, amt: i32, t: crate::damage::TierTable)
    requires
        0 <= mi < s.len(),
    ensures
        damage_ents(s, mi, amt, t).len() == s.len(),
        forall|i: int|
            0 <= i < s.len() ==> (#[trigger] damage_ents(s, mi, amt, t)[i]).x == s[i].x && damage_ents(s, mi, amt, t)[i].y
                == s[i].y,
{
    crate::state::lemma_first_index(s, crate::state::mage_pred());
}

/// Damage never raises the hit points of its target.
proof fn lemma_damage_no_gain(s: Seq<Entity>, mi: int, amt: i32, t: crate::damage::TierTable)
    requires
        0 <= mi < s.len(),
        amt >= 0,
        s[mi].hp >= 0,
        mi == crate::state::mage_index_s(s),
    ensures
        damage_ents(s, mi, amt, t)[mi].hp <= s[mi].hp,
{
}

/// An enemy's turn moves the enemy by at most one cell and nobody else, keeps every
/// clock, and changes no hit points but the mage's, which never go up.
pub proof fn law_enemy_turn_frame(
    a: GameState,
    b: GameState,
    idx: int,
    t: crate::damage::TierTable,
    ev0: Seq<Event>,
    ev1: Seq<Event>,
)
    requires
        a.wf(),
        a.has_mage(),
        0 <= idx < a.entities@.len(),
        act_post(a, b, idx, t, ev0, ev1),
    ensures
        b.entities@.len() == a.entities@.len(),
        cheb_spec(
            b.entities@[idx].x as int,
            b.entities@[idx].y as int,
            a.entities@[idx].x as int,
            a.entities@[idx].y as int,
        ) <= 1,
        forall|i: int|
            0 <= i < a.entities@.len() && i != idx ==> (#[trigger] b.entities@[i]).x == a.entities@[i].x
                && b.entities@[i].y == a.entities@[i].y,
        crate::state::times_kept(a.entities@, b.entities@),
        forall|i: int|
            0 <= i < a.entities@.len() && i != a.mage_index() ==> (#[trigger] b.entities@[i]).hp == a.entities@[i].hp,
        b.entities@[a.mage_index()].hp <= a.entities@[a.mage_index()].hp,
{
    lemma_act_times(a, b, idx, t, ev0, ev1);
    lemma_act_spares(a, b, idx, t, ev0, ev1);
    let s = a.entities@;
    let e = s[idx];
    let m = a.mage_spec();
    crate::state::lemma_first_index(s, crate::state::mage_pred());
    let mi = a.mage_index();
    assert(crate::state::ent_ok(s[mi]));
    let s1 = s.update(idx, Entity { exhausted: false, ..e });
    lemma_damage_in_place(s, mi, IMP_DMG, t);
    lemma_damage_in_place(s, mi, EYE_DMG, t);
    lemma_damage_in_place(s1, mi, BOSS_SLAM, t);
    lemma_toward_near(a, e.x as int, e.y as int, m.x as int, m.y as int, 8);
    assert(cheb_spec(e.x as int, e.y as int, e.x as int, e.y as int) == 0);
    let b0 = b.entities@[idx];
    if e.stun == 0 && e.kind == Kind::Boss && !e.pending_slam {
        assert(b0.x == e.x && b0.y == e.y);
        assert(idx != mi);
    } else if e.stun > 0 {
        assert(b0.x == e.x && b0.y == e.y);
    } else if e.kind == Kind::Imp || e.kind == Kind::Eye {
        assert(idx != mi);
        if b.entities@ == damage_ents(s, mi, IMP_DMG, t) || b.entities@ == damage_ents(s, mi, EYE_DMG, t) {
            assert(b0.x == e.x && b0.y == e.y);
            lemma_damage_no_gain(s, mi, IMP_DMG, t);
            lemma_damage_no_gain(s, mi, EYE_DMG, t);
        } else {
            assert(b.entities@ == step_ents(a, idx));
            lemma_toward_scan(a, e.x as int, e.y as int, m.x as int, m.y as int, 8);
            match toward_cell(a, idx) {
                Some(c) => {
                    assert(b0.x == c.0 && b0.y == c.1);
                },
                None => {},
            }
        }
    } else if e.kind == Kind::Boss {
        assert(idx != mi);
        let d = damage_ents(s1, mi, BOSS_SLAM, t);
        assert(crate::state::mage_index_s(s1) == mi) by {
            crate::state::lemma_first_index(s1, crate::state::mage_pred());
        }
        lemma_damage_no_gain(s1, mi, BOSS_SLAM, t);
        assert(s1[idx].x == e.x && s1[idx].y == e.y);
        assert(d[idx].x == e.x && d[idx].y == e.y);
    }
}

/// A cell an enemy may enter: walkable, holding no alive unit, neither spikes nor fire.
pub open spec fn enterable(g: GameState, x: int, y: int) -> bool {
    &&& walkable_spec(g, x, y)
    &&& g.ent_at(x, y) is None
    &&& g.tile(x, y) != Tile::Spike
    &&& g.fire_at(x, y) <= 0
}

/// The scan keeps a neighbour only when it is a cell an enemy may enter and strictly
/// closer to the target than everything before it.
proof fn lemma_toward_scan_cell(g: GameState, ex: int, ey: int, mx: int, my: int, k: int)
    requires
        0 <= k <= 8,
    ensures
        toward_scan(g, ex, ey, mx, my, k).1 <= cheb_spec(ex, ey, mx, my),
        toward_scan(g, ex, ey, mx, my, k).0 is None ==> toward_scan(g, ex, ey, mx, my, k).1 == cheb_spec(ex, ey, mx, my),
        toward_scan(g, ex, ey, mx, my, k).0 matches Some(c) ==> {
            &&& walkable_spec(g, c.0, c.1)
            &&& g.ent_at(c.0, c.1) is None
            &&& g.tile(c.0, c.1) != Tile::Spike
            &&& g.fire_at(c.0, c.1) <= 0
            &&& cheb_spec(c.0, c.1, ex, ey) == 1
            &&& cheb_spec(c.0, c.1, mx, my) == toward_scan(g, ex, ey, mx, my, k).1
            &&& toward_scan(g, ex, ey, mx, my, k).1 < cheb_spec(ex, ey, mx, my)
        },
        forall|j: int|
            0 <= j < k && enterable(g, ex + (#[trigger] step_off(j)).0, ey + step_off(j).1) && cheb_spec(
                ex + step_off(j).0,
                ey + step_off(j).1,
                mx,
                my,
            ) < cheb_spec(ex, ey, mx, my) ==> toward_scan(g, ex, ey, mx, my, k).0 is Some && toward_scan(
                g,
                ex,
                ey,
                mx,
                my,
                k,
            ).1 <= cheb_spec(ex + step_off(j).0, ey + step_off(j).1, mx, my),
    decreases k,
{
    if k > 0 {
        lemma_toward_scan_cell(g, ex, ey, mx, my, k - 1);
        let o = step_off(k - 1);
        assert forall|j: int|
            0 <= j < k && enterable(g, ex + (#[trigger] step_off(j)).0, ey + step_off(j).1) && cheb_spec(
                ex + step_off(j).0,
                ey + step_off(j).1,
                mx,
                my,
            ) < cheb_spec(ex, ey, mx, my) implies toward_scan(g, ex, ey, mx, my, k).0 is Some && toward_scan(
                g,
                ex,
                ey,
                mx,
                my,
                k,
            ).1 <= cheb_spec(ex + step_off(j).0, ey + step_off(j).1, mx, my) by {
            if j < k - 1 {
            }
        }
        assert(-1 <= o.0 <= 1 && -1 <= o.1 <= 1 && (o.0 != 0 || o.1 != 0));
    }
}

/// An enemy's turn moves it, if at all, by one cell to a cell it may enter (walkable,
/// holding no alive unit, neither spikes nor fire) that is strictly closer to the mage.
pub proof fn law_enemy_step_cell(g: GameState, b: GameState, idx: int, t: crate::damage::TierTable, ev0: Seq<Event>, ev1: Seq<Event>)
    requires
        g.has_mage(),
        0 <= idx < g.entities@.len(),
        idx != g.mage_index(),
        act_post(g, b, idx, t, ev0, ev1),
    ensures
        ({
            let e = g.entities@[idx];
            let n = b.entities@[idx];
            let m = g.mage_spec();
            (n.x != e.x || n.y != e.y) ==> {
                &&& walkable_spec(g, n.x as int, n.y as int)
                &&& g.ent_at(n.x as int, n.y as int) is None
                &&& g.tile(n.x as int, n.y as int) != Tile::Spike
                &&& g.fire_at(n.x as int, n.y as int) <= 0
                &&& cheb_spec(n.x as int, n.y as int, e.x as int, e.y as int) == 1
                &&& cheb_spec(n.x as int, n.y as int, m.x as int, m.y as int) < cheb_spec(e.x as int, e.y as int, m.x as int, m.y as int)
            }
        }),
{
    let e = g.entities@[idx];
    let m = g.mage_spec();
    lemma_first_index(g.entities@, mage_pred());
    lemma_toward_scan_cell(g, e.x as int, e.y as int, m.x as int, m.y as int, 8);
    let mi = g.mage_index();
    let s = g.entities@;
    if e.stun == 0 && e.kind == Kind::Boss && !e.pending_slam {
        assert(b.entities@[idx].x == e.x && b.entities@[idx].y == e.y);
    } else if e.stun > 0 {
        assert(b.entities@[idx].x == e.x && b.entities@[idx].y == e.y);
    } else {
        match e.kind {
            Kind::Boss => {
                let s1 = s.update(idx, Entity { exhausted: false, ..e });
                assert(s1[idx].x == e.x && s1[idx].y == e.y);
                lemma_first_index(s1, mage_pred());
                crate::damage::lemma_damage_others(s1, mi, BOSS_SLAM, t);
            },
            _ => {
                match toward_cell(g, idx) {
                    Some(c) => {
                        assert(g.inb(c.0, c.1));
                        assert(moved_to(s, idx, c.0, c.1)[idx].x == c.0);
                        assert(moved_to(s, idx, c.0, c.1)[idx].y == c.1);
                    },
                    None => {},
                }
            },
        }
    }
}

/// The neighbour offset `(dx, dy)` is tried by the scan.
proof fn lemma_step_off_covers(dx: int, dy: int) -> (j: int)
    requires
        -1 <= dx <= 1,
        -1 <= dy <= 1,
        dx != 0 || dy != 0,
    ensures
        0 <= j < 8,
        step_off(j) == (dx, dy),
{
    let j: int = if dy == -1 {
        dx + 1
    } else if dy == 0 {
        if dx == -1 {
            3
        } else {
            4
        }
    } else {
        dx + 6
    };
    assert(step_off(j) == (dx, dy));
    j
}

/// An imp that cannot strike, or a rune eye that cannot shoot, does not stand still
/// while a neighbouring cell it may enter is closer to the mage: it moves, to a cell at
/// least as close as any such neighbour.
pub proof fn law_enemy_closes_in(
    g: GameState,
    b: GameState,
    idx: int,
    t: crate::damage::TierTable,
    ev0: Seq<Event>,
    ev1: Seq<Event>,
    dx: int,
    dy: int,
)
    requires
        g.has_mage(),
        0 <= idx < g.entities@.len(),
        idx != g.mage_index(),
        act_post(g, b, idx, t, ev0, ev1),
        g.entities@[idx].stun == 0,
        ({
            let e = g.entities@[idx];
            let m = g.mage_spec();
            let d = cheb_spec(e.x as int, e.y as int, m.x as int, m.y as int);
            (e.kind == Kind::Imp && d != 1) || (e.kind == Kind::Eye && !(d <= EYE_RANGE && los_spec(
                g,
                e.x as int,
                e.y as int,
                m.x as int,
                m.y as int,
            )))
        }),
        -1 <= dx <= 1,
        -1 <= dy <= 1,
        dx != 0 || dy != 0,
        enterable(g, g.entities@[idx].x + dx, g.entities@[idx].y + dy),
        cheb_spec(g.entities@[idx].x + dx, g.entities@[idx].y + dy, g.mage_spec().x as int, g.mage_spec().y as int)
            < cheb_spec(g.entities@[idx].x as int, g.entities@[idx].y as int, g.mage_spec().x as int, g.mage_spec().y as int),
    ensures
        b.entities@[idx].x != g.entities@[idx].x || b.entities@[idx].y != g.entities@[idx].y,
        cheb_spec(b.entities@[idx].x as int, b.entities@[idx].y as int, g.mage_spec().x as int, g.mage_spec().y as int)
            <= cheb_spec(g.entities@[idx].x + dx, g.entities@[idx].y + dy, g.mage_spec().x as int, g.mage_spec().y as int),
{
    let e = g.entities@[idx];
    let m = g.mage_spec();
    let j = lemma_step_off_covers(dx, dy);
    lemma_toward_scan_cell(g, e.x as int, e.y as int, m.x as int, m.y as int, 8);
    assert(enterable(g, e.x + step_off(j).0, e.y + step_off(j).1));
    let c = toward_cell(g, idx)->0;
    assert(g.inb(c.0, c.1));
    assert(moved_to(g.entities@, idx, c.0, c.1)[idx].x == c.0);
    assert(moved_to(g.entities@, idx, c.0, c.1)[idx].y == c.1);
}

} // verus!
