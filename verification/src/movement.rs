//! Forced movement (push, shove, hook), the mage's own steps, the walk brake, and
//! integer-cost A* path finding.
use crate::config::{FIRE_DOT, HASTE_GRANT, PUSH_CRASH, SPIKE_DMG};
use crate::damage::{
    damage_budget, damage_ents, damage_events, deal_damage, hit_entity, is_kill, kill_bonus, lemma_damage_times,
    StepCtx, TierTable,
};
use crate::events::Event;
use crate::grid::{
    cell_free_s, cheb, cheb_spec, coord_ok, ent_index_at, in_bounds, opt_int, sign, sign_spec, walkable,
    walkable_spec,
};
use crate::spells::Spell;
use crate::state::{
    count_alive_enemies, ents_ok, first_index, has_mage_s, is_alive, is_alive_enemy, lemma_count_same,
    lemma_first_index, lemma_first_index_same, lemma_grids_same, mage_index_s, mage_pred, occupies, Entity,
    GameState, Kind, Tile, ENT_CAP, lemma_count_bound, times_kept, lemma_times_kept_trans, frame_kept, lemma_frame_kept_trans,
};
use vstd::prelude::*;

verus! {

/// `s` with entity `idx` standing on `(x, y)`.
pub open spec fn moved_to(s: Seq<Entity>, idx: int, x: int, y: int) -> Seq<Entity> {
    s.update(idx, Entity { x: x as i32, y: y as i32, ..s[idx] })
}

/// Damage taken by an entity dropped onto `(x, y)`: spikes first, otherwise fire.
pub open spec fn hazard_dmg(g: GameState, x: int, y: int) -> Option<i32> {
    if g.tile(x, y) == Tile::Spike {
        Some(SPIKE_DMG)
    } else if g.fire_at(x, y) > 0 {
        Some(FIRE_DOT)
    } else {
        None
    }
}

pub open spec fn after_hazard(g: GameState, s: Seq<Entity>, idx: int, x: int, y: int, t: TierTable) -> Seq<
    Entity,
> {
    match hazard_dmg(g, x, y) {
        Some(a) => damage_ents(s, idx, a, t),
        None => s,
    }
}

pub open spec fn hazard_events(g: GameState, s: Seq<Entity>, idx: int, x: int, y: int, t: TierTable) -> Seq<
    Event,
> {
    match hazard_dmg(g, x, y) {
        Some(a) => damage_events(s, idx, a, t),
        None => Seq::empty(),
    }
}

/// Stuns entity `idx` for one turn when `on` and it is alive.
pub open spec fn stun_after(s: Seq<Entity>, idx: int, on: bool) -> Seq<Entity> {
    if on && is_alive(s[idx]) {
        s.update(idx, Entity { stun: 1, ..s[idx] })
    } else {
        s
    }
}

pub open spec fn stun_events(s: Seq<Entity>, idx: int, on: bool) -> Seq<Event> {
    if on && is_alive(s[idx]) {
        seq![Event::Stunned { id: s[idx].id }]
    } else {
        Seq::empty()
    }
}

pub open spec fn moved_event(s: Seq<Entity>, idx: int, x: int, y: int) -> Event {
    Event::Moved { id: s[idx].id, from: (s[idx].x, s[idx].y), to: (x as i32, y as i32) }
}

/// Cell an entity is pushed to: one step directly away from the mage.
pub open spec fn push_target(s: Seq<Entity>, idx: int) -> (int, int) {
    let e = s[idx];
    let m = s[mage_index_s(s)];
    (e.x + sign_spec(e.x - m.x), e.y + sign_spec(e.y - m.y))
}

/// Entities after `do_push`.
pub open spec fn push_ents(g: GameState, idx: int, t: TierTable) -> Seq<Entity> {
    let s = g.entities@;
    let (nx, ny) = push_target(s, idx);
    if s[idx].kind == Kind::Boss {
        s
    } else if !cell_free_s(g, s, nx, ny) {
        stun_after(damage_ents(s, idx, PUSH_CRASH, t), idx, t.tier_of(Spell::Push) >= 2)
    } else {
        after_hazard(g, moved_to(s, idx, nx, ny), idx, nx, ny, t)
    }
}

/// Events of `do_push`.
pub open spec fn push_events(g: GameState, idx: int, t: TierTable) -> Seq<Event> {
    let s = g.entities@;
    let (nx, ny) = push_target(s, idx);
    if s[idx].kind == Kind::Boss {
        Seq::empty()
    } else if !cell_free_s(g, s, nx, ny) {
        damage_events(s, idx, PUSH_CRASH, t) + stun_events(
            damage_ents(s, idx, PUSH_CRASH, t),
            idx,
            t.tier_of(Spell::Push) >= 2,
        )
    } else {
        seq![moved_event(s, idx, nx, ny)] + hazard_events(g, moved_to(s, idx, nx, ny), idx, nx, ny, t)
    }
}

/// The usual preconditions of an effect on entity `idx`.
pub open spec fn effect_ok(g: GameState, idx: int) -> bool {
    &&& g.wf()
    &&& g.has_mage()
    &&& 0 <= idx < g.entities@.len()
    &&& damage_budget(g.entities@, idx)
}

/// The board parts of `b` equal those of `a`, and `b` is well formed.
pub open spec fn board_kept(a: GameState, b: GameState) -> bool {
    &&& b.w == a.w
    &&& b.h == a.h
    &&& b.tiles == a.tiles
    &&& b.fire == a.fire
    &&& b.burn_t == a.burn_t
    &&& b.room_idx == a.room_idx
    &&& b.core == a.core
    &&& b.wf()
    &&& b.entities@.len() == a.entities@.len()
    &&& b.has_mage() == a.has_mage()
    &&& b.mage_index() == a.mage_index()
    &&& forall|i: int| 0 <= i < a.entities@.len() ==> (#[trigger] b.entities@[i]).kind == a.entities@[i].kind
}

/// Facts about entity sequences that differ only in the fields named.
pub proof fn lemma_ents_kinds(s: Seq<Entity>, t: Seq<Entity>)
    requires
        s.len() == t.len(),
        forall|i: int| 0 <= i < s.len() ==> (#[trigger] t[i]).kind == s[i].kind,
    ensures
        has_mage_s(t) == has_mage_s(s),
        mage_index_s(t) == mage_index_s(s),
{
    assert forall|i: int| 0 <= i < s.len() implies #[trigger] mage_pred()(t[i]) == mage_pred()(s[i]) by {}
    lemma_first_index_same(t, s, mage_pred());
}

/// Moving an entity to an on-board cell keeps the entity invariants.
pub proof fn lemma_moved_to(g: GameState, s: Seq<Entity>, idx: int, x: int, y: int)
    requires
        ents_ok(s),
        0 <= idx < s.len(),
        g.wf(),
        g.inb(x, y),
    ensures
        ents_ok(moved_to(s, idx, x, y)),
        moved_to(s, idx, x, y).len() == s.len(),
        has_mage_s(moved_to(s, idx, x, y)) == has_mage_s(s),
        mage_index_s(moved_to(s, idx, x, y)) == mage_index_s(s),
        count_alive_enemies(moved_to(s, idx, x, y)) == count_alive_enemies(s),
        damage_budget(s, idx) ==> damage_budget(moved_to(s, idx, x, y), idx),
{
    let t = moved_to(s, idx, x, y);
    lemma_ents_kinds(s, t);
    assert forall|i: int| 0 <= i < s.len() implies is_alive_enemy(#[trigger] s[i]) == is_alive_enemy(t[i]) by {}
    lemma_count_same(s, t);
    lemma_first_index(s, mage_pred());
}

/// Stunning keeps the entity invariants.
pub proof fn lemma_stun_after(s: Seq<Entity>, idx: int, on: bool)
    requires
        ents_ok(s),
        0 <= idx < s.len(),
    ensures
        ents_ok(stun_after(s, idx, on)),
        stun_after(s, idx, on).len() == s.len(),
        has_mage_s(stun_after(s, idx, on)) == has_mage_s(s),
        mage_index_s(stun_after(s, idx, on)) == mage_index_s(s),
{
    let t = stun_after(s, idx, on);
    lemma_ents_kinds(s, t);
    assert forall|i: int| 0 <= i < s.len() implies is_alive_enemy(#[trigger] s[i]) == is_alive_enemy(t[i]) by {}
    lemma_count_same(s, t);
    lemma_first_index(s, mage_pred());
}

/// Move entity `idx` to `(x, y)` and report it.
pub fn move_entity(g: &mut GameState, idx: usize, x: i32, y: i32, ctx: &mut StepCtx)
    requires
        old(g).wf(),
        idx < old(g).entities@.len(),
        old(g).inb(x as int, y as int),
    ensures
        final(g).entities@ == moved_to(old(g).entities@, idx as int, x as int, y as int),
        final(ctx).events@ == old(ctx).events@.push(moved_event(old(g).entities@, idx as int, x as int, y as int)),
        final(ctx).mage_hurt == old(ctx).mage_hurt,
        final(ctx).tiers == old(ctx).tiers,
        board_kept(*old(g), *final(g)),
{
    proof {
        lemma_moved_to(*old(g), old(g).entities@, idx as int, x as int, y as int);
    }
    let id = g.entities[idx].id;
    let from = (g.entities[idx].x, g.entities[idx].y);
    g.entities[idx].x = x;
    g.entities[idx].y = y;
    ctx.events.push(Event::Moved { id, from, to: (x, y) });
    proof {
        lemma_grids_same(*g, *old(g));
        assert(g.entities@ =~= moved_to(old(g).entities@, idx as int, x as int, y as int));
    }
}

/// Damage from the hazard under a dropped entity: spikes first, otherwise fire.
/// Returns whether the cell is a spike.
fn hazard_on_pushed(g: &mut GameState, idx: usize, x: i32, y: i32, ctx: &mut StepCtx) -> (r: bool)
    requires
        effect_ok(*old(g), idx as int),
        old(g).inb(x as int, y as int),
    ensures
        r == (old(g).tile(x as int, y as int) == Tile::Spike),
        final(g).entities@ == after_hazard(*old(g), old(g).entities@, idx as int, x as int, y as int, old(ctx).tiers),
        final(ctx).events@ == old(ctx).events@ + hazard_events(
            *old(g),
            old(g).entities@,
            idx as int,
            x as int,
            y as int,
            old(ctx).tiers,
        ),
        final(ctx).mage_hurt == (old(ctx).mage_hurt || (old(g).entities@[idx as int].kind == Kind::Mage
            && hazard_dmg(*old(g), x as int, y as int) is Some)),
        final(ctx).tiers == old(ctx).tiers,
        board_kept(*old(g), *final(g)),
{
    if g.tiles[y as usize][x as usize] == Tile::Spike {
        deal_damage(g, idx, SPIKE_DMG, ctx);
        true
    } else if g.fire[y as usize][x as usize] > 0 {
        deal_damage(g, idx, FIRE_DOT, ctx);
        false
    } else {
        proof {
            assert(old(ctx).events@ + Seq::<Event>::empty() =~= old(ctx).events@);
        }
        false
    }
}

/// Push: shove entity `idx` one cell directly away from the mage.
///
/// The golem is too heavy and never moves. A blocked push (wall or unit behind) deals
/// crash damage instead, and with push at tier 2 stuns a survivor for one turn;
/// otherwise the entity moves and takes the hazard damage of its landing cell.
pub fn do_push(g: &mut GameState, idx: usize, ctx: &mut StepCtx)
    requires
        effect_ok(*old(g), idx as int),
    ensures
        final(g).entities@ == push_ents(*old(g), idx as int, old(ctx).tiers),
        final(ctx).events@ == old(ctx).events@ + push_events(*old(g), idx as int, old(ctx).tiers),
        old(g).entities@[idx as int].kind != Kind::Mage ==> final(ctx).mage_hurt == old(ctx).mage_hurt,
        final(ctx).tiers == old(ctx).tiers,
        board_kept(*old(g), *final(g)),
{
    let ghost s = g.entities@;
    if g.entities[idx].kind == Kind::Boss {
        proof {
            assert(old(ctx).events@ + Seq::<Event>::empty() =~= old(ctx).events@);
            lemma_grids_same(*g, *old(g));
        }
        return;
    }
    let (mx, my) = {
        let m = g.mage();
        (m.x, m.y)
    };
    let (ex, ey) = (g.entities[idx].x, g.entities[idx].y);
    proof {
        lemma_first_index(s, mage_pred());
        assert(crate::state::ent_ok(s[idx as int]));
        assert(crate::state::ent_ok(s[mage_index_s(s)]));
    }
    let (nx, ny) = (ex + sign(ex - mx), ey + sign(ey - my));
    if !walkable(g, nx, ny) || ent_index_at(g, nx, ny).is_some() {
        deal_damage(g, idx, PUSH_CRASH, ctx);
        let ghost s1 = g.entities@;
        proof {
            lemma_spell_ids();
        }
        if ctx.tiers.of(Spell::Push.id()) >= 2 && g.entities[idx].alive() {
            g.entities[idx].stun = 1;
            ctx.events.push(Event::Stunned { id: g.entities[idx].id });
            proof {
                lemma_stun_after(s1, idx as int, true);
                assert(g.entities@ =~= stun_after(s1, idx as int, true));
            }
        } else {
            proof {
                assert(g.entities@ =~= stun_after(s1, idx as int, ctx.tiers.tier_of(Spell::Push) >= 2));
            }
        }
        proof {
            lemma_grids_same(*g, *old(g));
            lemma_ents_kinds(s, g.entities@);
            assert(ctx.events@ =~= old(ctx).events@ + push_events(*old(g), idx as int, old(ctx).tiers));
        }
        return;
    }
    move_entity(g, idx, nx, ny, ctx);
    proof {
        lemma_moved_to(*old(g), s, idx as int, nx as int, ny as int);
    }
    hazard_on_pushed(g, idx, nx, ny, ctx);
    proof {
        assert(ctx.events@ =~= old(ctx).events@ + push_events(*old(g), idx as int, old(ctx).tiers));
    }
}

proof fn lemma_spell_ids()
    ensures
        forall|a: Spell| #[trigger] crate::spells::spell_of_name(crate::spells::spell_name(a)) == Some(a),
{
    crate::spells::lemma_spell_names_distinct();
}

/// Entities and events after `shove_dir`.
pub open spec fn shove_ents(g: GameState, idx: int, dx: int, dy: int, t: TierTable) -> Seq<Entity> {
    shove_ents_s(g, g.entities@, idx, dx, dy, t)
}

/// Entities `s` on the board of `g` after shoving entity `idx` by `(dx, dy)`.
pub open spec fn shove_ents_s(g: GameState, s: Seq<Entity>, idx: int, dx: int, dy: int, t: TierTable) -> Seq<Entity> {
    let (nx, ny) = (s[idx].x + dx, s[idx].y + dy);
    if (dx == 0 && dy == 0) || !cell_free_s(g, s, nx, ny) {
        s
    } else {
        after_hazard(g, moved_to(s, idx, nx, ny), idx, nx, ny, t)
    }
}

pub open spec fn shove_events(g: GameState, idx: int, dx: int, dy: int, t: TierTable) -> Seq<Event> {
    shove_events_s(g, g.entities@, idx, dx, dy, t)
}

pub open spec fn shove_events_s(g: GameState, s: Seq<Entity>, idx: int, dx: int, dy: int, t: TierTable) -> Seq<Event> {
    let (nx, ny) = (s[idx].x + dx, s[idx].y + dy);
    if (dx == 0 && dy == 0) || !cell_free_s(g, s, nx, ny) {
        Seq::empty()
    } else {
        seq![moved_event(s, idx, nx, ny)] + hazard_events(g, moved_to(s, idx, nx, ny), idx, nx, ny, t)
    }
}

/// Shove entity `idx` by `(dx, dy)` unless the cell there is blocked; the landing cell's
/// hazard applies.
pub fn shove_dir(g: &mut GameState, idx: usize, dx: i32, dy: i32, ctx: &mut StepCtx)
    requires
        effect_ok(*old(g), idx as int),
        coord_ok(old(g).entities@[idx as int].x + dx),
        coord_ok(old(g).entities@[idx as int].y + dy),
    ensures
        final(g).entities@ == shove_ents(*old(g), idx as int, dx as int, dy as int, old(ctx).tiers),
        final(ctx).events@ == old(ctx).events@ + shove_events(*old(g), idx as int, dx as int, dy as int, old(ctx).tiers),
        old(g).entities@[idx as int].kind != Kind::Mage ==> final(ctx).mage_hurt == old(ctx).mage_hurt,
        final(ctx).tiers == old(ctx).tiers,
        board_kept(*old(g), *final(g)),
{
    let ghost s = g.entities@;
    if dx == 0 && dy == 0 {
        proof {
            assert(old(ctx).events@ + Seq::<Event>::empty() =~= old(ctx).events@);
            lemma_grids_same(*g, *old(g));
        }
        return;
    }
    let (nx, ny) = (g.entities[idx].x + dx, g.entities[idx].y + dy);
    if !walkable(g, nx, ny) || ent_index_at(g, nx, ny).is_some() {
        proof {
            assert(old(ctx).events@ + Seq::<Event>::empty() =~= old(ctx).events@);
            lemma_grids_same(*g, *old(g));
        }
        return;
    }
    move_entity(g, idx, nx, ny, ctx);
    proof {
        lemma_moved_to(*old(g), s, idx as int, nx as int, ny as int);
    }
    hazard_on_pushed(g, idx, nx, ny, ctx);
    proof {
        assert(ctx.events@ =~= old(ctx).events@ + shove_events(*old(g), idx as int, dx as int, dy as int, old(ctx).tiers));
    }
}

/// Up to `k` steps of the hook's pull on entity `idx`, with the events: each step moves
/// one cell towards the mage unless that is the mage's cell or blocked; landing on a
/// spike or fire deals its damage and ends the pull.
pub open spec fn pull_loop(g: GameState, s: Seq<Entity>, idx: int, k: nat, t: TierTable) -> (Seq<Entity>, Seq<Event>)
    decreases k,
{
    if k == 0 {
        (s, Seq::empty())
    } else {
        let m = s[mage_index_s(s)];
        let e = s[idx];
        let nx = e.x + sign_spec(m.x - e.x);
        let ny = e.y + sign_spec(m.y - e.y);
        if nx == m.x && ny == m.y {
            (s, Seq::empty())
        } else if !cell_free_s(g, s, nx, ny) {
            (s, Seq::empty())
        } else {
            let s1 = moved_to(s, idx, nx, ny);
            let ev1 = seq![moved_event(s, idx, nx, ny)];
            match hazard_dmg(g, nx, ny) {
                Some(a) => (damage_ents(s1, idx, a, t), ev1 + damage_events(s1, idx, a, t)),
                None => {
                    let r = pull_loop(g, s1, idx, (k - 1) as nat, t);
                    (r.0, ev1 + r.1)
                },
            }
        }
    }
}

/// Entities after `do_pull`.
pub open spec fn pull_ents(g: GameState, idx: int, t: TierTable) -> Seq<Entity> {
    if g.entities@[idx].kind == Kind::Boss {
        g.entities@
    } else {
        stun_after(pull_loop(g, g.entities@, idx, 2, t).0, idx, t.tier_of(Spell::Hook) >= 2)
    }
}

pub open spec fn pull_events(g: GameState, idx: int, t: TierTable) -> Seq<Event> {
    if g.entities@[idx].kind == Kind::Boss {
        Seq::empty()
    } else {
        let r = pull_loop(g, g.entities@, idx, 2, t);
        r.1 + stun_events(r.0, idx, t.tier_of(Spell::Hook) >= 2)
    }
}

/// Hook: drag entity `idx` up to two cells towards the mage (never onto the mage,
/// stopping at obstacles and at the first hazard it lands on); with hook at tier 2 a
/// survivor is stunned for one turn. The golem cannot be moved.
#[verifier::rlimit(40)]
pub fn do_pull(g: &mut GameState, idx: usize, ctx: &mut StepCtx)
    requires
        effect_ok(*old(g), idx as int),
    ensures
        final(g).entities@ == pull_ents(*old(g), idx as int, old(ctx).tiers),
        final(ctx).events@ == old(ctx).events@ + pull_events(*old(g), idx as int, old(ctx).tiers),
        old(g).entities@[idx as int].kind != Kind::Mage ==> final(ctx).mage_hurt == old(ctx).mage_hurt,
        final(ctx).tiers == old(ctx).tiers,
        board_kept(*old(g), *final(g)),
{
    if g.entities[idx].kind == Kind::Boss {
        proof {
            assert(old(ctx).events@ + Seq::<Event>::empty() =~= old(ctx).events@);
            lemma_grids_same(*g, *old(g));
        }
        return;
    }
    let ghost g0 = *g;
    let ghost t = ctx.tiers;
    proof {
        lemma_grids_same(*g, *old(g));
    }
    let mut k: usize = 0;
    let mut go = true;
    while k < 2 && go
        invariant
            0 <= k <= 2,
            idx < g.entities@.len(),
            go ==> damage_budget(g.entities@, idx as int),
            board_kept(g0, *g),
            g0.wf(),
            g0.has_mage(),
            ctx.tiers == t,
            g0.entities@[idx as int].kind != Kind::Mage ==> ctx.mage_hurt == old(ctx).mage_hurt,
            g.entities@[idx as int].kind == g0.entities@[idx as int].kind,
            go ==> ({
                let r = pull_loop(g0, g.entities@, idx as int, (2 - k) as nat, t);
                &&& pull_loop(g0, g0.entities@, idx as int, 2, t).0 == r.0
                &&& old(ctx).events@ + pull_loop(g0, g0.entities@, idx as int, 2, t).1 == ctx.events@ + r.1
            }),
            !go ==> pull_loop(g0, g0.entities@, idx as int, 2, t).0 == g.entities@ && old(ctx).events@
                + pull_loop(g0, g0.entities@, idx as int, 2, t).1 == ctx.events@,
        decreases 2 - k,
    {
        let ghost sk = g.entities@;
        let ghost evk = ctx.events@;
        let (mx, my) = {
            let m = g.mage();
            (m.x, m.y)
        };
        let (ex, ey) = (g.entities[idx].x, g.entities[idx].y);
        proof {
            lemma_first_index(sk, mage_pred());
            assert(crate::state::ent_ok(sk[idx as int]));
            assert(crate::state::ent_ok(sk[mage_index_s(sk)]));
        }
        let (nx, ny) = (ex + sign(mx - ex), ey + sign(my - ey));
        if nx == mx && ny == my {
            go = false;
            proof {
                assert(evk + Seq::<Event>::empty() =~= evk);
            }
        } else if !walkable(g, nx, ny) || ent_index_at(g, nx, ny).is_some() {
            go = false;
            proof {
                assert(evk + Seq::<Event>::empty() =~= evk);
            }
        } else {
            move_entity(g, idx, nx, ny, ctx);
            proof {
                lemma_moved_to(g0, sk, idx as int, nx as int, ny as int);
                lemma_grids_same(*g, g0);
            }
            if g.tiles[ny as usize][nx as usize] == Tile::Spike {
                deal_damage(g, idx, SPIKE_DMG, ctx);
                go = false;
                proof {
                    assert(ctx.events@ =~= evk + seq![moved_event(sk, idx as int, nx as int, ny as int)]
                        + damage_events(moved_to(sk, idx as int, nx as int, ny as int), idx as int, SPIKE_DMG, t));
                }
            } else if g.fire[ny as usize][nx as usize] > 0 {
                deal_damage(g, idx, FIRE_DOT, ctx);
                go = false;
                proof {
                    assert(ctx.events@ =~= evk + seq![moved_event(sk, idx as int, nx as int, ny as int)]
                        + damage_events(moved_to(sk, idx as int, nx as int, ny as int), idx as int, FIRE_DOT, t));
                }
            } else {
                proof {
                    let r = pull_loop(g0, g.entities@, idx as int, (2 - k - 1) as nat, t);
                    assert(evk + (seq![moved_event(sk, idx as int, nx as int, ny as int)] + r.1) =~= ctx.events@
                        + r.1);
                }
            }
        }
        proof {
            lemma_grids_same(*g, g0);
        }
        k = k + 1;
    }
    proof {
        if go {
            assert(k == 2);
            assert(ctx.events@ + Seq::<Event>::empty() =~= ctx.events@);
        }
    }
    let ghost s2 = g.entities@;
    proof {
        lemma_spell_ids();
    }
    if ctx.tiers.of(Spell::Hook.id()) >= 2 && g.entities[idx].alive() {
        g.entities[idx].stun = 1;
        ctx.events.push(Event::Stunned { id: g.entities[idx].id });
        proof {
            lemma_stun_after(s2, idx as int, true);
            assert(g.entities@ =~= stun_after(s2, idx as int, true));
        }
    } else {
        proof {
            assert(g.entities@ =~= stun_after(s2, idx as int, t.tier_of(Spell::Hook) >= 2));
            assert(ctx.events@ + Seq::<Event>::empty() =~= ctx.events@);
        }
    }
    proof {
        lemma_grids_same(*g, *old(g));
        lemma_ents_kinds(g0.entities@, g.entities@);
        assert(ctx.events@ =~= old(ctx).events@ + pull_events(*old(g), idx as int, old(ctx).tiers));
    }
}

} // verus!

verus! {

/// `nt` equals `ot` except that cell `(x, y)` holds `t`.
pub open spec fn tiles_set(ot: Seq<Vec<Tile>>, nt: Seq<Vec<Tile>>, x: int, y: int, t: Tile) -> bool {
    &&& nt.len() == ot.len()
    &&& forall|r: int| 0 <= r < ot.len() && r != y ==> #[trigger] nt[r] == ot[r]
    &&& nt[y]@ == ot[y]@.update(x, t)
}

/// Entities after the mage steps onto `(x, y)`: spikes and fire there each hurt it (both
/// apply on a burning spike), and a haste rune grants haste.
pub open spec fn mage_move_ents(g: GameState, x: int, y: int, t: TierTable) -> Seq<Entity> {
    let s = g.entities@;
    let mi = mage_index_s(s);
    let s1 = moved_to(s, mi, x, y);
    let s2 = if g.tile(x, y) == Tile::Spike {
        damage_ents(s1, mi, SPIKE_DMG, t)
    } else {
        s1
    };
    let s3 = if g.fire_at(x, y) > 0 {
        damage_ents(s2, mi, FIRE_DOT, t)
    } else {
        s2
    };
    if g.tile(x, y) == Tile::Rune {
        s3.update(mi, Entity { haste_turns: HASTE_GRANT, ..s3[mi] })
    } else {
        s3
    }
}

pub open spec fn mage_move_events(g: GameState, x: int, y: int, t: TierTable) -> Seq<Event> {
    let s = g.entities@;
    let mi = mage_index_s(s);
    let s1 = moved_to(s, mi, x, y);
    let s2 = if g.tile(x, y) == Tile::Spike {
        damage_ents(s1, mi, SPIKE_DMG, t)
    } else {
        s1
    };
    seq![moved_event(s, mi, x, y)] + (if g.tile(x, y) == Tile::Spike {
        damage_events(s1, mi, SPIKE_DMG, t)
    } else {
        Seq::empty()
    }) + (if g.fire_at(x, y) > 0 {
        damage_events(s2, mi, FIRE_DOT, t)
    } else {
        Seq::empty()
    }) + (if g.tile(x, y) == Tile::Rune {
        seq![Event::HasteGained { id: s[mi].id }]
    } else {
        Seq::empty()
    })
}

/// Everything about the mage's step that does not concern the entities.
pub open spec fn mage_move_board(a: GameState, b: GameState, x: int, y: int) -> bool {
    &&& b.w == a.w
    &&& b.h == a.h
    &&& b.fire == a.fire
    &&& b.burn_t == a.burn_t
    &&& b.room_idx == a.room_idx
    &&& b.core == a.core
    &&& b.wf()
    &&& b.entities@.len() == a.entities@.len()
    &&& b.has_mage() == a.has_mage()
    &&& b.mage_index() == a.mage_index()
    &&& forall|i: int| 0 <= i < a.entities@.len() ==> (#[trigger] b.entities@[i]).kind == a.entities@[i].kind
    &&& if a.tile(x, y) == Tile::Rune {
        tiles_set(a.tiles@, b.tiles@, x, y, Tile::Floor)
    } else {
        b.tiles == a.tiles
    }
}

/// The mage steps onto `(x, y)`.
///
/// A spike and a fire on the cell each deal their damage (both apply on a burning
/// spike); a haste rune is used up and grants `HASTE_GRANT` hasted turns.
pub fn move_mage_to(g: &mut GameState, x: i32, y: i32, ctx: &mut StepCtx)
    requires
        old(g).wf(),
        old(g).has_mage(),
        old(g).inb(x as int, y as int),
    ensures
        final(g).entities@ == mage_move_ents(*old(g), x as int, y as int, old(ctx).tiers),
        final(ctx).events@ == old(ctx).events@ + mage_move_events(*old(g), x as int, y as int, old(ctx).tiers),
        final(ctx).mage_hurt == (old(ctx).mage_hurt || old(g).tile(x as int, y as int) == Tile::Spike
            || old(g).fire_at(x as int, y as int) > 0),
        final(ctx).tiers == old(ctx).tiers,
        mage_move_board(*old(g), *final(g), x as int, y as int),
{
    let mi = g.mage_idx();
    let ghost s = g.entities@;
    let ghost t = ctx.tiers;
    let ghost ev0 = ctx.events@;
    move_entity(g, mi, x, y, ctx);
    let ghost s1 = g.entities@;
    proof {
        lemma_moved_to(*old(g), s, mi as int, x as int, y as int);
    }
    if g.tiles[y as usize][x as usize] == Tile::Spike {
        deal_damage(g, mi, SPIKE_DMG, ctx);
    }
    let ghost s2 = g.entities@;
    let ghost ev2 = ctx.events@;
    proof {
        lemma_grids_same(*g, *old(g));
        lemma_ents_kinds(s, s2);
        if old(g).tile(x as int, y as int) != Tile::Spike {
            assert(ev2 =~= ev0 + seq![moved_event(s, mi as int, x as int, y as int)] + Seq::<Event>::empty());
        }
    }
    if g.fire[y as usize][x as usize] > 0 {
        deal_damage(g, mi, FIRE_DOT, ctx);
    }
    let ghost s3 = g.entities@;
    let ghost ev3 = ctx.events@;
    proof {
        lemma_grids_same(*g, *old(g));
        lemma_ents_kinds(s, s3);
        lemma_first_index(s, mage_pred());
        if old(g).fire_at(x as int, y as int) <= 0 {
            assert(ev3 =~= ev2 + Seq::<Event>::empty());
        }
    }
    if g.tiles[y as usize][x as usize] == Tile::Rune {
        g.tiles[y as usize][x as usize] = Tile::Floor;
        proof {
            lemma_count_bound(s3);
        }
        let mage = g.mage_mut();
        mage.haste_turns = HASTE_GRANT;
        ctx.events.push(Event::HasteGained { id: mage.id });
        proof {
            lemma_ents_kinds(s, g.entities@);
            assert forall|i: int| 0 <= i < s3.len() implies is_alive_enemy(#[trigger] s3[i]) == is_alive_enemy(g.entities@[i]) by {}
            lemma_count_same(s3, g.entities@);
            lemma_tile_set_ok(*old(g), *g, x as int, y as int);
            assert(ctx.events@ =~= ev3 + seq![Event::HasteGained { id: s[mi as int].id }]);
            assert(g.entities@ =~= mage_move_ents(*old(g), x as int, y as int, t));
        }
    } else {
        proof {
            assert(ctx.events@ =~= ev3 + Seq::<Event>::empty());
            lemma_grids_same(*g, *old(g));
        }
    }
    proof {
        assert(ctx.events@ =~= old(ctx).events@ + mage_move_events(*old(g), x as int, y as int, t));
    }
}

/// Replacing one tile by a non-burning tile keeps the board well formed.
proof fn lemma_tile_set_ok(a: GameState, b: GameState, x: int, y: int)
    requires
        a.grids_ok(),
        a.inb(x, y),
        b.w == a.w,
        b.h == a.h,
        b.fire == a.fire,
        b.burn_t == a.burn_t,
        tiles_set(a.tiles@, b.tiles@, x, y, Tile::Floor),
    ensures
        b.grids_ok(),
{
    assert forall|yy: int| 0 <= yy < b.h implies (#[trigger] b.tiles@[yy])@.len() == b.w by {
        if yy != y {
            assert(b.tiles@[yy] == a.tiles@[yy]);
        }
    }
    assert forall|xx: int, yy: int| b.inb(xx, yy) && #[trigger] b.tile(xx, yy) == Tile::WoodBurn implies b.burn_at(
        xx,
        yy,
    ) > i32::MIN by {
        if yy != y {
            assert(b.tiles@[yy] == a.tiles@[yy]);
        }
        assert(a.tile(xx, yy) == Tile::WoodBurn);
    }
}

/// An alive enemy stands next to `(x, y)`.
pub open spec fn adj_enemy(s: Seq<Entity>, x: int, y: int) -> bool {
    exists|i: int|
        0 <= i < s.len() && is_alive_enemy(#[trigger] s[i]) && cheb_spec(s[i].x as int, s[i].y as int, x, y) == 1
}

/// Zone-of-control brake: auto-walk stops when the mage was hurt this step, when an
/// alive enemy is next to the mage, or when `next` is next to an alive enemy.
pub fn walk_brake(g: &GameState, next: Option<(i32, i32)>, ctx: &StepCtx) -> (r: bool)
    requires
        g.wf(),
        g.has_mage(),
    ensures
        r == (ctx.mage_hurt || adj_enemy(g.entities@, g.mage_spec().x as int, g.mage_spec().y as int) || (
        next matches Some(n) && adj_enemy(g.entities@, n.0 as int, n.1 as int))),
{
    if ctx.mage_hurt {
        return true;
    }
    let (mx, my) = {
        let m = g.mage();
        (m.x, m.y)
    };
    proof {
        lemma_first_index(g.entities@, mage_pred());
        assert(crate::state::ent_ok(g.mage_spec()));
    }
    if adj_to(g, mx, my) {
        return true;
    }
    match next {
        Some((nx, ny)) => adj_to(g, nx, ny),
        None => false,
    }
}

/// Chebyshev distance of two cells given in wide integers.
fn cheb_wide(ax: i64, ay: i64, bx: i64, by: i64) -> (r: i64)
    requires
        -0x1_0000_0000 <= ax <= 0x1_0000_0000,
        -0x1_0000_0000 <= ay <= 0x1_0000_0000,
        -0x1_0000_0000 <= bx <= 0x1_0000_0000,
        -0x1_0000_0000 <= by <= 0x1_0000_0000,
    ensures
        r == cheb_spec(ax as int, ay as int, bx as int, by as int),
{
    let dx = if ax >= bx {
        ax - bx
    } else {
        bx - ax
    };
    let dy = if ay >= by {
        ay - by
    } else {
        by - ay
    };
    if dx >= dy {
        dx
    } else {
        dy
    }
}

fn adj_to(g: &GameState, x: i32, y: i32) -> (r: bool)
    requires
        g.wf(),
    ensures
        r == adj_enemy(g.entities@, x as int, y as int),
{
    let mut i: usize = 0;
    while i < g.entities.len()
        invariant
            g.wf(),
            i <= g.entities@.len(),
            forall|j: int|
                0 <= j < i ==> !(is_alive_enemy(#[trigger] g.entities@[j]) && cheb_spec(
                    g.entities@[j].x as int,
                    g.entities@[j].y as int,
                    x as int,
                    y as int,
                ) == 1),
        decreases g.entities@.len() - i,
    {
        let e = &g.entities[i];
        if e.hp > 0 && !e.kind.is_mage() && cheb_wide(e.x as i64, e.y as i64, x as i64, y as i64) == 1 {
            return true;
        }
        i = i + 1;
    }
    false
}

} // verus!

verus! {

/// `p` is a walk from `(sx, sy)` (excluded) to `(tx, ty)` (included) by king moves over
/// walkable cells, where every cell but the last is free of alive units, spikes and fire.
pub open spec fn path_valid(g: GameState, sx: int, sy: int, tx: int, ty: int, p: Seq<(i32, i32)>) -> bool {
    &&& p.len() >= 1
    &&& p.last().0 == tx && p.last().1 == ty
    &&& cheb_spec(sx, sy, p[0].0 as int, p[0].1 as int) == 1
    &&& forall|i: int|
        0 < i < p.len() ==> cheb_spec(
            p[i - 1].0 as int,
            p[i - 1].1 as int,
            (#[trigger] p[i]).0 as int,
            p[i].1 as int,
        ) == 1
    &&& forall|i: int| 0 <= i < p.len() ==> walkable_spec(g, (#[trigger] p[i]).0 as int, p[i].1 as int)
    &&& forall|i: int|
        0 <= i < p.len() - 1 ==> clean_cell(g, (#[trigger] p[i]).0 as int, p[i].1 as int)
}

/// No alive unit, no spike and no fire on the cell.
pub open spec fn clean_cell(g: GameState, x: int, y: int) -> bool {
    g.ent_at(x, y) is None && g.tile(x, y) != Tile::Spike && g.fire_at(x, y) <= 0
}

/// An open node of the search.
struct Node {
    x: i32,
    y: i32,
    g: i64,
    f: i64,
}

/// Number of `true` entries.
pub open spec fn count_true(s: Seq<bool>) -> nat
    decreases s.len(),
{
    if s.len() == 0 {
        0
    } else {
        count_true(s.drop_last()) + if s.last() {
            1nat
        } else {
            0nat
        }
    }
}

pub proof fn lemma_count_true(s: Seq<bool>, i: int)
    requires
        0 <= i < s.len(),
        !s[i],
    ensures
        count_true(s.update(i, true)) == count_true(s) + 1,
        count_true(s) < s.len(),
    decreases s.len(),
{
    if i == s.len() - 1 {
        assert(s.update(i, true).drop_last() =~= s.drop_last());
        lemma_count_true_le(s.drop_last());
    } else {
        lemma_count_true(s.drop_last(), i);
        assert(s.update(i, true).drop_last() =~= s.drop_last().update(i, true));
    }
}

pub proof fn lemma_count_true_le(s: Seq<bool>)
    ensures
        count_true(s) <= s.len(),
    decreases s.len(),
{
    if s.len() > 0 {
        lemma_count_true_le(s.drop_last());
    }
}

pub proof fn lemma_count_false(s: Seq<bool>)
    requires
        forall|k: int| 0 <= k < s.len() ==> !#[trigger] s[k],
    ensures
        count_true(s) == 0,
    decreases s.len(),
{
    if s.len() > 0 {
        assert forall|k: int| 0 <= k < s.len() - 1 implies !#[trigger] s.drop_last()[k] by {
            assert(s.drop_last()[k] == s[k]);
        }
        lemma_count_false(s.drop_last());
    }
}

/// Index arithmetic of an on-board cell.
pub proof fn lemma_cell_index(x: int, y: int, w: int, h: int)
    requires
        0 <= x < w,
        0 <= y < h,
    ensures
        0 <= y * w,
        0 <= y * w + x < w * h,
        (y * w + x) % w == x,
        (y * w + x) / w == y,
{
    assert(0 <= y * w && 0 <= y * w + x < w * h) by (nonlinear_arith)
        requires
            0 <= x < w,
            0 <= y < h,
    ;
    vstd::arithmetic::div_mod::lemma_fundamental_div_mod_converse(y * w + x, w, y, x);
}

spec fn kx(k: int, w: int) -> int {
    k % w
}

spec fn ky(k: int, w: int) -> int {
    k / w
}

/// The search invariant relating scores, predecessors and closed cells.
spec fn search_inv(
    g: GameState,
    sx: int,
    sy: int,
    tx: int,
    ty: int,
    gs: Seq<i64>,
    pv: Seq<Option<(i32, i32)>>,
    cl: Seq<bool>,
) -> bool {
    let w = g.w as int;
    let n = g.w * g.h;
    let ks = sy * w + sx;
    &&& gs.len() == n
    &&& pv.len() == n
    &&& cl.len() == n
    &&& gs[ks] == 0
    &&& pv[ks] is None
    &&& forall|k: int| 0 <= k < n ==> (0 <= #[trigger] gs[k] <= 14 * count_true(cl) || gs[k] == i64::MAX)
    &&& forall|k: int| 0 <= k < n && #[trigger] gs[k] != i64::MAX && k != ks ==> pv[k] is Some
    &&& forall|k: int| 0 <= k < n && #[trigger] cl[k] ==> gs[k] != i64::MAX
    &&& forall|k: int| 0 <= k < n && (#[trigger] pv[k]) is Some ==> pred_ok(g, tx, ty, gs, cl, k, pv[k].unwrap())
}

/// Facts about the recorded predecessor `p` of cell number `k`.
spec fn pred_ok(g: GameState, tx: int, ty: int, gs: Seq<i64>, cl: Seq<bool>, k: int, p: (i32, i32)) -> bool {
    let w = g.w as int;
    let pk = p.1 * w + p.0;
    &&& g.inb(p.0 as int, p.1 as int)
    &&& cl[pk]
    &&& gs[pk] < gs[k]
    &&& gs[k] != i64::MAX
    &&& cheb_spec(p.0 as int, p.1 as int, kx(k, w), ky(k, w)) == 1
    &&& walkable_spec(g, kx(k, w), ky(k, w))
    &&& ((kx(k, w) == tx && ky(k, w) == ty) || clean_cell(g, kx(k, w), ky(k, w)))
}

spec fn node_ok(g: GameState, gs: Seq<i64>, cl: Seq<bool>, o: Node) -> bool {
    &&& g.inb(o.x as int, o.y as int)
    &&& gs[o.y * g.w + o.x] <= o.g
    &&& 0 <= o.g <= 14 * count_true(cl)
}

spec fn open_inv(g: GameState, gs: Seq<i64>, cl: Seq<bool>, open: Seq<Node>) -> bool {
    forall|i: int| 0 <= i < open.len() ==> node_ok(g, gs, cl, #[trigger] open[i])
}

fn heur(x: i32, y: i32, tx: i32, ty: i32) -> (r: i64)
    requires
        coord_ok(x as int),
        coord_ok(y as int),
        coord_ok(tx as int),
        coord_ok(ty as int),
    ensures
        0 <= r <= 30_000_000_000,
        r == cheb_spec(x as int, y as int, tx as int, ty as int) * 10,
{
    let d = cheb(x, y, tx, ty);
    (d as i64) * 10
}

/// Index of cell `(x, y)` on a board `w` wide.
spec fn cell_k(x: int, y: int, w: int) -> int {
    y * w + x
}

/// The search may enter `(x, y)`: walkable, and clean unless it is the target.
pub open spec fn passable(g: GameState, x: int, y: int, tx: int, ty: int) -> bool {
    walkable_spec(g, x, y) && (clean_cell(g, x, y) || (x == tx && y == ty))
}

/// A path from `(sx, sy)` to `(tx, ty)` exists (see `path_valid`).
pub open spec fn path_exists(g: GameState, sx: int, sy: int, tx: int, ty: int) -> bool {
    exists|p: Seq<(i32, i32)>| #[trigger] path_valid(g, sx, sy, tx, ty, p)
}

/// The search reached the cell: closed, or with a known cost.
spec fn reached(g: GameState, gs: Seq<i64>, cl: Seq<bool>, x: int, y: int) -> bool {
    cl[cell_k(x, y, g.w as int)] || gs[cell_k(x, y, g.w as int)] != i64::MAX
}

/// Every enterable neighbour of `(cx, cy)` was reached.
spec fn expanded(g: GameState, gs: Seq<i64>, cl: Seq<bool>, cx: int, cy: int, tx: int, ty: int) -> bool {
    forall|nx: int, ny: int|
        cheb_spec(cx, cy, nx, ny) == 1 && #[trigger] passable(g, nx, ny, tx, ty) ==> reached(g, gs, cl, nx, ny)
}

/// Cell index of an open node.
spec fn node_cell(o: Node, w: int) -> int {
    cell_k(o.x as int, o.y as int, w)
}

/// Every reached cell that is not closed has a node in the open list.
spec fn open_covers(g: GameState, gs: Seq<i64>, cl: Seq<bool>, open: Seq<Node>) -> bool {
    forall|k: int|
        0 <= k < g.w * g.h && #[trigger] gs[k] != i64::MAX && !cl[k] ==> exists|i: int|
            0 <= i < open.len() && #[trigger] node_cell(open[i], g.w as int) == k
}

/// Every closed cell but the target and `(ex, ey)` was expanded.
spec fn closed_expanded(g: GameState, tx: int, ty: int, gs: Seq<i64>, cl: Seq<bool>, ex: int, ey: int) -> bool {
    forall|x: int, y: int|
        g.inb(x, y) && #[trigger] cl[cell_k(x, y, g.w as int)] && !(x == tx && y == ty) && !(x == ex && y == ey)
            ==> expanded(g, gs, cl, x, y, tx, ty)
}

/// Completeness invariant of the search: every reached open cell has a node in the open
/// list, every closed cell but the target was expanded, and the target is not closed.
spec fn reach_inv(g: GameState, tx: int, ty: int, gs: Seq<i64>, cl: Seq<bool>, open: Seq<Node>) -> bool {
    &&& open_covers(g, gs, cl, open)
    &&& closed_expanded(g, tx, ty, gs, cl, tx, ty)
    &&& g.inb(tx, ty) ==> !cl[cell_k(tx, ty, g.w as int)]
}

/// Taking a node of a closed cell out of the open list keeps the cover.
proof fn lemma_cover_pop(g: GameState, gs: Seq<i64>, cl: Seq<bool>, cl2: Seq<bool>, open0: Seq<Node>, bi: int)
    requires
        open_covers(g, gs, cl, open0),
        0 <= bi < open0.len(),
        cl.len() == g.w * g.h,
        cl2.len() == cl.len(),
        forall|k: int| 0 <= k < cl.len() && #[trigger] cl[k] ==> cl2[k],
        0 <= node_cell(open0[bi], g.w as int) < cl.len(),
        cl2[node_cell(open0[bi], g.w as int)],
    ensures
        open_covers(g, gs, cl2, open0.remove(bi)),
{
    let o = open0.remove(bi);
    assert forall|k: int| 0 <= k < g.w * g.h && #[trigger] gs[k] != i64::MAX && !cl2[k] implies exists|i: int|
        0 <= i < o.len() && #[trigger] node_cell(o[i], g.w as int) == k by {
        assert(!cl[k]);
        let i = choose|i: int| 0 <= i < open0.len() && #[trigger] node_cell(open0[i], g.w as int) == k;
        if i < bi {
            assert(o[i] == open0[i]);
        } else {
            assert(i != bi);
            assert(o[i - 1] == open0[i]);
        }
    }
}

/// Offset of the `d`-th neighbour scanned (rows from the top, left to right).
spec fn off_x(d: int) -> int {
    d % 3 - 1
}

spec fn off_y(d: int) -> int {
    d / 3 - 1
}

proof fn lemma_offsets()
    ensures
        forall|d: int|
            0 <= d < 9 ==> -1 <= #[trigger] off_x(d) <= 1 && -1 <= off_y(d) <= 1 && (off_x(d) == 0 && off_y(d) == 0
                <==> d == 4) && d == (off_y(d) + 1) * 3 + (off_x(d) + 1),
{
    assert forall|d: int| 0 <= d < 9 implies -1 <= #[trigger] off_x(d) <= 1 && -1 <= off_y(d) <= 1 && (off_x(d)
        == 0 && off_y(d) == 0 <==> d == 4) && d == (off_y(d) + 1) * 3 + (off_x(d) + 1) by {
        if d == 0 {
        } else if d == 1 {
        } else if d == 2 {
        } else if d == 3 {
        } else if d == 4 {
        } else if d == 5 {
        } else if d == 6 {
        } else if d == 7 {
        } else {
        }
    }
}

/// The `d`-th neighbour of `(cx, cy)`.
spec fn nbx(cx: int, d: int) -> int {
    cx + off_x(d)
}

spec fn nby(cy: int, d: int) -> int {
    cy + off_y(d)
}

/// The neighbours scanned so far were reached when enterable.
spec fn scanned(g: GameState, tx: int, ty: int, gs: Seq<i64>, cl: Seq<bool>, cx: int, cy: int, d: int) -> bool {
    forall|d2: int|
        0 <= d2 < d && d2 != 4 && #[trigger] passable(g, nbx(cx, d2), nby(cy, d2), tx, ty) ==> reached(
            g,
            gs,
            cl,
            nbx(cx, d2),
            nby(cy, d2),
        )
}

/// All eight neighbours scanned: the cell is expanded.
proof fn lemma_scanned_all(g: GameState, tx: int, ty: int, gs: Seq<i64>, cl: Seq<bool>, cx: int, cy: int)
    requires
        scanned(g, tx, ty, gs, cl, cx, cy, 9),
    ensures
        expanded(g, gs, cl, cx, cy, tx, ty),
{
    lemma_offsets();
    assert forall|nx: int, ny: int|
        cheb_spec(cx, cy, nx, ny) == 1 && #[trigger] passable(g, nx, ny, tx, ty) implies reached(g, gs, cl, nx, ny) by {
        let d2 = (ny - cy + 1) * 3 + (nx - cx + 1);
        assert(0 <= d2 < 9);
        assert(-1 <= off_x(d2) <= 1 && -1 <= off_y(d2) <= 1);
        assert(d2 == (off_y(d2) + 1) * 3 + (off_x(d2) + 1));
        assert(off_x(d2) == nx - cx && off_y(d2) == ny - cy);
        assert(nbx(cx, d2) == nx && nby(cy, d2) == ny);
        assert(d2 != 4);
    }
}

/// Growing the known costs and the closed set keeps every cell reached, every expansion
/// complete and every scan done.
proof fn lemma_reach_mono(g: GameState, tx: int, ty: int, gs: Seq<i64>, cl: Seq<bool>, gs2: Seq<i64>, cl2: Seq<bool>)
    requires
        0 <= g.w,
        0 <= g.h,
        gs.len() == g.w * g.h,
        cl.len() == g.w * g.h,
        gs2.len() == g.w * g.h,
        cl2.len() == g.w * g.h,
        forall|k: int| 0 <= k < g.w * g.h && #[trigger] gs[k] != i64::MAX ==> gs2[k] != i64::MAX,
        forall|k: int| 0 <= k < g.w * g.h && #[trigger] cl[k] ==> cl2[k],
    ensures
        forall|x: int, y: int| #[trigger] expanded(g, gs, cl, x, y, tx, ty) ==> expanded(g, gs2, cl2, x, y, tx, ty),
        forall|x: int, y: int, d: int|
            #[trigger] scanned(g, tx, ty, gs, cl, x, y, d) ==> scanned(g, tx, ty, gs2, cl2, x, y, d),
        forall|x: int, y: int| g.inb(x, y) && #[trigger] reached(g, gs, cl, x, y) ==> reached(g, gs2, cl2, x, y),
{
    assert forall|x: int, y: int| #[trigger] expanded(g, gs, cl, x, y, tx, ty) implies expanded(
        g,
        gs2,
        cl2,
        x,
        y,
        tx,
        ty,
    ) by {
        assert forall|nx: int, ny: int|
            cheb_spec(x, y, nx, ny) == 1 && #[trigger] passable(g, nx, ny, tx, ty) implies reached(g, gs2, cl2, nx, ny) by {
            lemma_cell_index(nx, ny, g.w as int, g.h as int);
            assert(reached(g, gs, cl, nx, ny));
        }
    }
    assert forall|x: int, y: int, d: int| #[trigger] scanned(g, tx, ty, gs, cl, x, y, d) implies scanned(
        g,
        tx,
        ty,
        gs2,
        cl2,
        x,
        y,
        d,
    ) by {
        assert forall|d2: int|
            0 <= d2 < d && d2 != 4 && #[trigger] passable(g, nbx(x, d2), nby(y, d2), tx, ty) implies reached(
            g,
            gs2,
            cl2,
            nbx(x, d2),
            nby(y, d2),
        ) by {
            lemma_cell_index(nbx(x, d2), nby(y, d2), g.w as int, g.h as int);
        }
    }
    assert forall|x: int, y: int| g.inb(x, y) && #[trigger] reached(g, gs, cl, x, y) implies reached(
        g,
        gs2,
        cl2,
        x,
        y,
    ) by {
        lemma_cell_index(x, y, g.w as int, g.h as int);
    }
}

/// When the open list ran dry, no path leads to the target.
proof fn lemma_no_path(g: GameState, sx: int, sy: int, tx: int, ty: int, gs: Seq<i64>, cl: Seq<bool>, p: Seq<(i32, i32)>)
    requires
        0 <= g.w,
        0 <= g.h,
        gs.len() == g.w * g.h,
        cl.len() == g.w * g.h,
        g.inb(sx, sy),
        !(sx == tx && sy == ty),
        gs[cell_k(sx, sy, g.w as int)] != i64::MAX,
        forall|k: int| 0 <= k < g.w * g.h && #[trigger] gs[k] != i64::MAX ==> cl[k],
        reach_inv(g, tx, ty, gs, cl, Seq::empty()),
    ensures
        !path_valid(g, sx, sy, tx, ty, p),
{
    let w = g.w as int;
    lemma_cell_index(sx, sy, w, g.h as int);
    assert(cl[cell_k(sx, sy, w)]);
    if path_valid(g, sx, sy, tx, ty, p) {
        let l = p.len() - 1;
        lemma_path_closed(g, sx, sy, tx, ty, gs, cl, p, l);
        lemma_cell_index(tx, ty, w, g.h as int);
        assert(cl[cell_k(p[l].0 as int, p[l].1 as int, w)]);
    }
}

proof fn lemma_path_closed(
    g: GameState,
    sx: int,
    sy: int,
    tx: int,
    ty: int,
    gs: Seq<i64>,
    cl: Seq<bool>,
    p: Seq<(i32, i32)>,
    i: int,
)
    requires
        0 <= g.w,
        0 <= g.h,
        gs.len() == g.w * g.h,
        cl.len() == g.w * g.h,
        g.inb(sx, sy),
        !(sx == tx && sy == ty),
        cl[cell_k(sx, sy, g.w as int)],
        forall|k: int| 0 <= k < g.w * g.h && #[trigger] gs[k] != i64::MAX ==> cl[k],
        reach_inv(g, tx, ty, gs, cl, Seq::empty()),
        path_valid(g, sx, sy, tx, ty, p),
        0 <= i < p.len(),
    ensures
        cl[cell_k(p[i].0 as int, p[i].1 as int, g.w as int)],
    decreases i,
{
    let w = g.w as int;
    let (px, py) = (p[i].0 as int, p[i].1 as int);
    assert(walkable_spec(g, px, py));
    lemma_cell_index(px, py, w, g.h as int);
    assert(passable(g, px, py, tx, ty)) by {
        if i < p.len() - 1 {
            assert(clean_cell(g, px, py));
        } else {
            assert(px == tx && py == ty);
        }
    }
    let (qx, qy) = if i == 0 {
        (sx, sy)
    } else {
        (p[i - 1].0 as int, p[i - 1].1 as int)
    };
    if i > 0 {
        lemma_path_closed(g, sx, sy, tx, ty, gs, cl, p, i - 1);
        assert(cheb_spec(qx, qy, px, py) == 1);
        assert(walkable_spec(g, qx, qy));
    }
    assert(g.inb(qx, qy));
    assert(cl[cell_k(qx, qy, w)]);
    if qx == tx && qy == ty {
        lemma_cell_index(tx, ty, w, g.h as int);
        assert(!cl[cell_k(tx, ty, w)]);
    }
    assert(expanded(g, gs, cl, qx, qy, tx, ty));
    assert(reached(g, gs, cl, px, py));
}

/// The search after some rounds: open list, travelled costs, predecessors, closed
/// cells, and whether the target has been closed.
#[verifier::ext_equal]
struct Search {
    open: Seq<Node>,
    gs: Seq<i64>,
    pv: Seq<Option<(i32, i32)>>,
    cl: Seq<bool>,
    hit: bool,
}

/// Open node `a` is taken before `b`: a smaller estimate, or an equal one with a larger
/// travelled cost.
spec fn better(a: Node, b: Node) -> bool {
    a.f < b.f || (a.f == b.f && a.g > b.g)
}

/// Index of the node taken among the first `j` open nodes (the earliest on a full tie).
spec fn best_upto(open: Seq<Node>, j: int) -> int
    decreases j,
{
    if j <= 1 {
        0
    } else {
        let b = best_upto(open, j - 1);
        if better(open[j - 1], open[b]) {
            j - 1
        } else {
            b
        }
    }
}

proof fn lemma_best_range(open: Seq<Node>, j: int)
    requires
        j >= 1,
    ensures
        0 <= best_upto(open, j) < j,
    decreases j,
{
    if j > 1 {
        lemma_best_range(open, j - 1);
    }
}

/// Scanning the neighbour in direction `d` of the expanded node `c`: an enterable cell
/// not yet closed whose cost improves gets the new cost, `c` as predecessor, and a new
/// open node.
spec fn relax(g: GameState, tx: int, ty: int, s: Search, c: Node, d: int) -> Search {
    let x = nbx(c.x as int, d);
    let y = nby(c.y as int, d);
    let kk = cell_k(x, y, g.w as int);
    let dest = x == tx && y == ty;
    if d == 4 || !g.inb(x, y) || s.cl[kk] || !walkable_spec(g, x, y) || (g.ent_at(x, y) is Some && !dest) || ((
    g.tile(x, y) == Tile::Spike || g.fire_at(x, y) > 0) && !dest) {
        s
    } else {
        let ng = c.g + if off_x(d) != 0 && off_y(d) != 0 {
            14int
        } else {
            10int
        };
        if ng < s.gs[kk] {
            Search {
                open: s.open.push(Node { x: x as i32, y: y as i32, g: ng as i64, f: (ng + cheb_spec(x, y, tx, ty) * 10) as i64 }),
                gs: s.gs.update(kk, ng as i64),
                pv: s.pv.update(kk, Some((c.x, c.y))),
                ..s
            }
        } else {
            s
        }
    }
}

/// The first `d` neighbours of `c` scanned, in row order from the top left.
spec fn expand_upto(g: GameState, tx: int, ty: int, s: Search, c: Node, d: int) -> Search
    decreases d,
{
    if d <= 0 {
        s
    } else {
        relax(g, tx, ty, expand_upto(g, tx, ty, s, c, d - 1), c, d - 1)
    }
}

/// One round: the best open node leaves the list; unless its cell is closed already it
/// is closed, and then either it is the target or its neighbours are scanned. A finished
/// search stays as it is.
spec fn search_step(g: GameState, tx: int, ty: int, s: Search) -> Search {
    if s.hit || s.open.len() == 0 {
        s
    } else {
        let bi = best_upto(s.open, s.open.len() as int);
        let c = s.open[bi];
        let ck = cell_k(c.x as int, c.y as int, g.w as int);
        let s1 = Search { open: s.open.remove(bi), ..s };
        if s.cl[ck] {
            s1
        } else {
            let s2 = Search { cl: s.cl.update(ck, true), ..s1 };
            if c.x == tx && c.y == ty {
                Search { hit: true, ..s2 }
            } else {
                expand_upto(g, tx, ty, s2, c, 9)
            }
        }
    }
}

/// The search before its first round: only the start is open, at cost zero.
spec fn search_init(g: GameState, sx: int, sy: int, tx: int, ty: int) -> Search {
    let n = g.w * g.h;
    let ks = cell_k(sx, sy, g.w as int);
    Search {
        open: seq![Node { x: sx as i32, y: sy as i32, g: 0, f: (cheb_spec(sx, sy, tx, ty) * 10) as i64 }],
        gs: Seq::new(n as nat, |k: int| if k == ks { 0i64 } else { i64::MAX }),
        pv: Seq::new(n as nat, |k: int| None::<(i32, i32)>),
        cl: Seq::new(n as nat, |k: int| false),
        hit: false,
    }
}

/// The search after `k` rounds.
spec fn search_after(g: GameState, sx: int, sy: int, tx: int, ty: int, k: nat) -> Search
    decreases k,
{
    if k == 0 {
        search_init(g, sx, sy, tx, ty)
    } else {
        search_step(g, tx, ty, search_after(g, sx, sy, tx, ty, (k - 1) as nat))
    }
}

/// The cells from the start (excluded) to `(x, y)` along the predecessors, at most
/// `fuel` of them.
spec fn trace_back(pv: Seq<Option<(i32, i32)>>, w: int, sx: int, sy: int, x: int, y: int, fuel: nat) -> Seq<(i32, i32)>
    decreases fuel,
{
    if fuel == 0 || (x == sx && y == sy) {
        Seq::empty()
    } else {
        let p = pv[cell_k(x, y, w)].unwrap();
        trace_back(pv, w, sx, sy, p.0 as int, p.1 as int, (fuel - 1) as nat).push((x as i32, y as i32))
    }
}

/// `s` back to front.
spec fn reversed(s: Seq<(i32, i32)>) -> Seq<(i32, i32)> {
    Seq::new(s.len(), |i: int| s[s.len() - 1 - i])
}

/// A finished search stays finished.
proof fn lemma_search_stable(g: GameState, sx: int, sy: int, tx: int, ty: int, k1: nat, k2: nat)
    requires
        k1 <= k2,
        search_after(g, sx, sy, tx, ty, k1).hit || search_after(g, sx, sy, tx, ty, k1).open.len() == 0,
    ensures
        search_after(g, sx, sy, tx, ty, k2) == search_after(g, sx, sy, tx, ty, k1),
    decreases k2,
{
    if k2 > k1 {
        lemma_search_stable(g, sx, sy, tx, ty, k1, (k2 - 1) as nat);
    }
}

/// The path the search of `find_path` returns: `None` when the two cells coincide or
/// the target was never closed, otherwise the predecessor chain from the target back to
/// the start, start-first. The search runs at most `9 * w * h + 1` rounds, and a chain
/// has at most `14 * w * h + 1` cells.
pub closed spec fn astar_path(g: GameState, sx: int, sy: int, tx: int, ty: int) -> Option<Seq<(i32, i32)>> {
    if sx == tx && sy == ty {
        None
    } else {
        let s = search_after(g, sx, sy, tx, ty, (9 * (g.w * g.h) + 1) as nat);
        if s.hit {
            Some(trace_back(s.pv, g.w as int, sx, sy, tx, ty, (14 * (g.w * g.h) + 1) as nat))
        } else {
            None
        }
    }
}

/// Eight-direction A* with integer costs (10 straight, 14 diagonal) from `(sx, sy)` to
/// `(tx, ty)`. Spikes, fire and alive units are avoided except on the target cell;
/// blocking tiles are never entered. The open node with the least estimate wins, ties
/// going to the larger travelled cost and then to the earliest inserted.
///
/// Returns the cells after the start up to and including the target; `None` when the
/// two cells coincide or no path was found. The result is exactly `astar_path`; it is a
/// valid path, and `None` (for distinct cells) only when no valid path exists.
#[verifier::rlimit(30)]
pub fn find_path(g: &GameState, sx: i32, sy: i32, tx: i32, ty: i32) -> (r: Option<Vec<(i32, i32)>>)
    requires
        g.wf(),
        g.inb(sx as int, sy as int),
        coord_ok(tx as int),
        coord_ok(ty as int),
    ensures
        (sx == tx && sy == ty) ==> r is None,
        r matches Some(p) ==> path_valid(*g, sx as int, sy as int, tx as int, ty as int, p@),
        r is None && !(sx == tx && sy == ty) ==> !path_exists(*g, sx as int, sy as int, tx as int, ty as int),
        r matches Some(p) ==> astar_path(*g, sx as int, sy as int, tx as int, ty as int) == Some(p@),
        r matches Some(p) ==> !p@.contains((sx, sy)),
        r is None ==> astar_path(*g, sx as int, sy as int, tx as int, ty as int) is None,
{
    if sx == tx && sy == ty {
        return None;
    }
    let w = g.w;
    let n: usize = (g.w * g.h) as usize;
    proof {
        lemma_cell_index(sx as int, sy as int, w as int, g.h as int);
    }
    let ks: usize = (sy * w + sx) as usize;
    let mut gscore: Vec<i64> = Vec::new();
    let mut prev: Vec<Option<(i32, i32)>> = Vec::new();
    let mut closed: Vec<bool> = Vec::new();
    let mut i: usize = 0;
    while i < n
        invariant
            i <= n,
            gscore@.len() == i,
            prev@.len() == i,
            closed@.len() == i,
            forall|k: int| 0 <= k < i ==> #[trigger] gscore@[k] == i64::MAX,
            forall|k: int| 0 <= k < i ==> (#[trigger] prev@[k]) is None,
            forall|k: int| 0 <= k < i ==> !#[trigger] closed@[k],
        decreases n - i,
    {
        gscore.push(i64::MAX);
        prev.push(None);
        closed.push(false);
        i = i + 1;
    }
    proof {
        lemma_count_false(closed@);
    }
    gscore.set(ks, 0);
    let mut open: Vec<Node> = Vec::new();
    open.push(Node { x: sx, y: sy, g: 0, f: heur(sx, sy, tx, ty) });
    proof {
        assert(search_inv(*g, sx as int, sy as int, tx as int, ty as int, gscore@, prev@, closed@));
        assert(node_ok(*g, gscore@, closed@, open@[0]));
        assert forall|k: int| 0 <= k < g.w * g.h && #[trigger] gscore@[k] != i64::MAX && !closed@[k] implies exists|i: int|
            0 <= i < open@.len() && #[trigger] node_cell(open@[i], g.w as int) == k by {
            assert(k == ks);
            assert(node_cell(open@[0], g.w as int) == ks);
        }
        assert forall|x: int, y: int|
            g.inb(x, y) && #[trigger] closed@[cell_k(x, y, w as int)] && !(x == tx && y == ty) && !(x == tx && y
                == ty) implies expanded(*g, gscore@, closed@, x, y, tx as int, ty as int) by {
            lemma_cell_index(x, y, w as int, g.h as int);
        }
        if g.inb(tx as int, ty as int) {
            lemma_cell_index(tx as int, ty as int, w as int, g.h as int);
        }
        assert(reach_inv(*g, tx as int, ty as int, gscore@, closed@, open@));
        let s0 = search_init(*g, sx as int, sy as int, tx as int, ty as int);
        assert(gscore@ =~= s0.gs);
        assert(prev@ =~= s0.pv);
        assert(closed@ =~= s0.cl);
        assert(open@ =~= s0.open);
    }
    let ghost mut rounds: nat = 0;
    while open.len() > 0
        invariant
            g.wf(),
            g.inb(sx as int, sy as int),
            coord_ok(tx as int),
            coord_ok(ty as int),
            !(sx == tx && sy == ty),
            w == g.w,
            n == g.w * g.h,
            ks == sy * w + sx,
            search_inv(*g, sx as int, sy as int, tx as int, ty as int, gscore@, prev@, closed@),
            open_inv(*g, gscore@, closed@, open@),
            reach_inv(*g, tx as int, ty as int, gscore@, closed@, open@),
            count_true(closed@) <= n,
            (Search { open: open@, gs: gscore@, pv: prev@, cl: closed@, hit: false }) == search_after(
                *g,
                sx as int,
                sy as int,
                tx as int,
                ty as int,
                rounds,
            ),
            rounds + (n - count_true(closed@)) * 9 + open@.len() <= 9 * n + 1,
        decreases (n - count_true(closed@)) * 9 + open@.len(),
    {
        let ghost st = Search { open: open@, gs: gscore@, pv: prev@, cl: closed@, hit: false };
        let mut bi: usize = 0;
        let mut j: usize = 1;
        while j < open.len()
            invariant
                bi < open@.len(),
                1 <= j <= open@.len(),
                bi == best_upto(open@, j as int),
            decreases open@.len() - j,
        {
            if open[j].f < open[bi].f || (open[j].f == open[bi].f && open[j].g > open[bi].g) {
                bi = j;
            }
            j = j + 1;
        }
        let ghost open0 = open@;
        let c = open.remove(bi);
        proof {
            assert(node_ok(*g, gscore@, closed@, open0[bi as int]));
            assert forall|i: int| 0 <= i < open@.len() implies node_ok(*g, gscore@, closed@, #[trigger] open@[i]) by {
                if i < bi {
                    assert(open@[i] == open0[i]);
                } else {
                    assert(open@[i] == open0[i + 1]);
                }
            }
            lemma_cell_index(c.x as int, c.y as int, w as int, g.h as int);
        }
        let ck: usize = (c.y * w + c.x) as usize;
        proof {
            assert(c == open0[bi as int]);
            assert(node_cell(open0[bi as int], w as int) == ck);
        }
        proof {
            assert(bi == best_upto(open0, open0.len() as int));
            assert(ck == cell_k(c.x as int, c.y as int, g.w as int));
            rounds = rounds + 1;
        }
        if closed[ck] {
            proof {
                lemma_cover_pop(*g, gscore@, closed@, closed@, open0, bi as int);
                assert((Search { open: open@, gs: gscore@, pv: prev@, cl: closed@, hit: false }) == search_step(*g, tx as int, ty as int, st));
            }
            continue;
        }
        proof {
            lemma_count_true(closed@, ck as int);
        }
        let ghost cl0 = closed@;
        closed.set(ck, true);
        proof {
            lemma_close(*g, sx as int, sy as int, tx as int, ty as int, gscore@, prev@, cl0, open@, ck as int);
        }
        let ghost s2 = Search { open: open@, gs: gscore@, pv: prev@, cl: closed@, hit: false };
        if c.x == tx && c.y == ty {
            proof {
                let b = (9 * n + 1) as nat;
                assert((Search { hit: true, ..s2 }) == search_step(*g, tx as int, ty as int, st));
                assert(search_after(*g, sx as int, sy as int, tx as int, ty as int, rounds).hit);
                lemma_search_stable(*g, sx as int, sy as int, tx as int, ty as int, rounds, b);
            }
            let p = rebuild(g, sx, sy, tx, ty, &gscore, &prev, &closed);
            return Some(p);
        }
        proof {
            lemma_cover_pop(*g, gscore@, cl0, closed@, open0, bi as int);
            lemma_reach_mono(*g, tx as int, ty as int, gscore@, cl0, gscore@, closed@);
            assert forall|x: int, y: int|
                g.inb(x, y) && #[trigger] closed@[cell_k(x, y, w as int)] && !(x == tx && y == ty) && !(x == c.x
                    && y == c.y) implies expanded(*g, gscore@, closed@, x, y, tx as int, ty as int) by {
                lemma_cell_index(x, y, w as int, g.h as int);
                assert(cl0[cell_k(x, y, w as int)]);
                assert(expanded(*g, gscore@, cl0, x, y, tx as int, ty as int));
            }
            if g.inb(tx as int, ty as int) {
                lemma_cell_index(tx as int, ty as int, w as int, g.h as int);
                assert(cell_k(tx as int, ty as int, w as int) != ck);
            }
        }
        let ghost open_base = open@.len();
        let mut d: usize = 0;
        while d < 9
            invariant
                g.wf(),
                g.inb(sx as int, sy as int),
                g.inb(c.x as int, c.y as int),
                coord_ok(tx as int),
                coord_ok(ty as int),
                w == g.w,
                n == g.w * g.h,
                ks == sy * w + sx,
                ck == c.y * w + c.x,
                0 <= ck < n,
                closed@[ck as int],
                1 <= count_true(closed@),
                0 <= c.g <= 14 * (count_true(closed@) - 1),
                gscore@[ck as int] <= c.g,
                search_inv(*g, sx as int, sy as int, tx as int, ty as int, gscore@, prev@, closed@),
                open_inv(*g, gscore@, closed@, open@),
                open_covers(*g, gscore@, closed@, open@),
                closed_expanded(*g, tx as int, ty as int, gscore@, closed@, c.x as int, c.y as int),
                g.inb(tx as int, ty as int) ==> !closed@[cell_k(tx as int, ty as int, w as int)],
                !(c.x == tx && c.y == ty),
                scanned(*g, tx as int, ty as int, gscore@, closed@, c.x as int, c.y as int, d as int),
                count_true(closed@) <= n,
                d <= 9,
                open@.len() <= open_base + d,
                (Search { open: open@, gs: gscore@, pv: prev@, cl: closed@, hit: false }) == expand_upto(
                    *g,
                    tx as int,
                    ty as int,
                    s2,
                    c,
                    d as int,
                ),
            decreases 9 - d,
        {
            let dx: i32 = (d % 3) as i32 - 1;
            let dy: i32 = (d / 3) as i32 - 1;
            let ghost d0 = d as int;
            let ghost sd = Search { open: open@, gs: gscore@, pv: prev@, cl: closed@, hit: false };
            proof {
                lemma_offsets();
                assert(dx == off_x(d0) && dy == off_y(d0));
                assert(nbx(c.x as int, d0) == c.x + dx && nby(c.y as int, d0) == c.y + dy);
            }
            d = d + 1;
            if dx == 0 && dy == 0 {
                proof {
                    assert(relax(*g, tx as int, ty as int, sd, c, d0) == sd);
                }
                continue;
            }
            let (x, y) = (c.x + dx, c.y + dy);
            if !in_bounds(g, x, y) {
                proof {
                    assert(!passable(*g, nbx(c.x as int, d0), nby(c.y as int, d0), tx as int, ty as int));
                    assert(relax(*g, tx as int, ty as int, sd, c, d0) == sd);
                }
                continue;
            }
            proof {
                lemma_cell_index(x as int, y as int, w as int, g.h as int);
            }
            let kk: usize = (y * w + x) as usize;
            proof {
                assert(kk == cell_k(x as int, y as int, w as int));
            }
            if closed[kk] || !walkable(g, x, y) {
                proof {
                    assert(relax(*g, tx as int, ty as int, sd, c, d0) == sd);
                }
                continue;
            }
            let is_dest = x == tx && y == ty;
            if ent_index_at(g, x, y).is_some() && !is_dest {
                proof {
                    assert(!passable(*g, nbx(c.x as int, d0), nby(c.y as int, d0), tx as int, ty as int));
                    assert(relax(*g, tx as int, ty as int, sd, c, d0) == sd);
                }
                continue;
            }
            let blocked_hazard = g.tiles[y as usize][x as usize] == Tile::Spike || g.fire[y as usize][x
                as usize] > 0;
            if blocked_hazard && !is_dest {
                proof {
                    assert(!passable(*g, nbx(c.x as int, d0), nby(c.y as int, d0), tx as int, ty as int));
                    assert(relax(*g, tx as int, ty as int, sd, c, d0) == sd);
                }
                continue;
            }
            let step: i64 = if dx != 0 && dy != 0 {
                14
            } else {
                10
            };
            let ng = c.g + step;
            if ng < gscore[kk] {
                let ghost gs0 = gscore@;
                let ghost pv0 = prev@;
                let ghost op0 = open@;
                gscore.set(kk, ng);
                prev.set(kk, Some((c.x, c.y)));
                let f = ng + heur(x, y, tx, ty);
                proof {
                    lemma_relax(*g, sx as int, sy as int, tx as int, ty as int, gs0, pv0, closed@, open@, kk as int, c.x, c.y, ng);
                }
                open.push(Node { x, y, g: ng, f });
                proof {
                    assert forall|i: int| 0 <= i < open@.len() implies node_ok(*g, gscore@, closed@, #[trigger] open@[i]) by {
                        if i < open@.len() - 1 {
                        }
                    }
                    lemma_reach_mono(*g, tx as int, ty as int, gs0, closed@, gscore@, closed@);
                    assert(node_cell(open@[open@.len() - 1], w as int) == kk);
                    assert forall|k: int| 0 <= k < g.w * g.h && #[trigger] gscore@[k] != i64::MAX && !closed@[k] implies exists|i: int|
                        0 <= i < open@.len() && #[trigger] node_cell(open@[i], g.w as int) == k by {
                        if k == kk {
                            assert(node_cell(open@[open@.len() - 1], w as int) == k);
                        } else {
                            assert(gs0[k] != i64::MAX);
                            let i = choose|i: int| 0 <= i < op0.len() && #[trigger] node_cell(op0[i], g.w as int) == k;
                            assert(open@[i] == op0[i]);
                        }
                    }
                    assert(reached(*g, gscore@, closed@, x as int, y as int));
                }
            }
            proof {
                assert((Search { open: open@, gs: gscore@, pv: prev@, cl: closed@, hit: false }) == relax(
                    *g,
                    tx as int,
                    ty as int,
                    sd,
                    c,
                    d0,
                ));
            }
        }
        proof {
            assert((Search { open: open@, gs: gscore@, pv: prev@, cl: closed@, hit: false }) == search_step(
                *g,
                tx as int,
                ty as int,
                st,
            ));
            lemma_scanned_all(*g, tx as int, ty as int, gscore@, closed@, c.x as int, c.y as int);
            assert forall|x: int, y: int|
                g.inb(x, y) && #[trigger] closed@[cell_k(x, y, w as int)] && !(x == tx && y == ty) && !(x == tx
                    && y == ty) implies expanded(*g, gscore@, closed@, x, y, tx as int, ty as int) by {
                if !(x == c.x && y == c.y) {
                    assert(closed_expanded(*g, tx as int, ty as int, gscore@, closed@, c.x as int, c.y as int));
                }
            }
        }
    }
    proof {
        assert forall|p: Seq<(i32, i32)>| !path_valid(*g, sx as int, sy as int, tx as int, ty as int, p) by {
            assert(open@ == Seq::<Node>::empty());
            assert forall|k: int| 0 <= k < g.w * g.h && #[trigger] gscore@[k] != i64::MAX implies closed@[k] by {
                if !closed@[k] {
                    let i = choose|i: int| 0 <= i < open@.len() && #[trigger] node_cell(open@[i], g.w as int) == k;
                }
            }
            lemma_no_path(*g, sx as int, sy as int, tx as int, ty as int, gscore@, closed@, p);
        }
        lemma_search_stable(*g, sx as int, sy as int, tx as int, ty as int, rounds, (9 * n + 1) as nat);
    }
    None
}

proof fn lemma_close(
    g: GameState,
    sx: int,
    sy: int,
    tx: int,
    ty: int,
    gs: Seq<i64>,
    pv: Seq<Option<(i32, i32)>>,
    cl: Seq<bool>,
    open: Seq<Node>,
    ck: int,
)
    requires
        search_inv(g, sx, sy, tx, ty, gs, pv, cl),
        open_inv(g, gs, cl, open),
        0 <= ck < cl.len(),
        !cl[ck],
        gs[ck] != i64::MAX,
    ensures
        search_inv(g, sx, sy, tx, ty, gs, pv, cl.update(ck, true)),
        open_inv(g, gs, cl.update(ck, true), open),
        count_true(cl.update(ck, true)) == count_true(cl) + 1,
{
    let w = g.w as int;
    let n = g.w * g.h;
    let cl2 = cl.update(ck, true);
    lemma_count_true(cl, ck);
    assert forall|i: int| 0 <= i < open.len() implies node_ok(g, gs, cl2, #[trigger] open[i]) by {
        assert(node_ok(g, gs, cl, open[i]));
    }
    assert forall|k: int| 0 <= k < n && (#[trigger] pv[k]) is Some implies pred_ok(g, tx, ty, gs, cl2, k, pv[k].unwrap()) by {
        assert(pred_ok(g, tx, ty, gs, cl, k, pv[k].unwrap()));
        let p = pv[k].unwrap();
        let pk = p.1 * w + p.0;
        lemma_cell_index(p.0 as int, p.1 as int, w, g.h as int);
        assert(cl[pk]);
        assert(cl2[pk]);
    }
    assert forall|k: int| 0 <= k < n implies (0 <= #[trigger] gs[k] <= 14 * count_true(cl2) || gs[k] == i64::MAX) by {}
    assert forall|k: int| 0 <= k < n && #[trigger] cl2[k] implies gs[k] != i64::MAX by {
        if k != ck {
            assert(cl[k]);
        }
    }
}

proof fn lemma_relax(
    g: GameState,
    sx: int,
    sy: int,
    tx: int,
    ty: int,
    gs: Seq<i64>,
    pv: Seq<Option<(i32, i32)>>,
    cl: Seq<bool>,
    open: Seq<Node>,
    kk: int,
    cx: i32,
    cy: i32,
    ng: i64,
)
    requires
        search_inv(g, sx, sy, tx, ty, gs, pv, cl),
        open_inv(g, gs, cl, open),
        g.inb(sx, sy),
        0 <= kk < cl.len(),
        !cl[kk],
        g.inb(cx as int, cy as int),
        cl[cy * g.w + cx],
        gs[cy * g.w + cx] < ng < gs[kk],
        10 <= ng <= 14 * count_true(cl),
        cheb_spec(cx as int, cy as int, kx(kk, g.w as int), ky(kk, g.w as int)) == 1,
        walkable_spec(g, kx(kk, g.w as int), ky(kk, g.w as int)),
        (kx(kk, g.w as int) == tx && ky(kk, g.w as int) == ty) || clean_cell(g, kx(kk, g.w as int), ky(kk, g.w as int)),
    ensures
        search_inv(g, sx, sy, tx, ty, gs.update(kk, ng), pv.update(kk, Some((cx, cy))), cl),
        open_inv(g, gs.update(kk, ng), cl, open),
{
    let w = g.w as int;
    let n = g.w * g.h;
    let ks = sy * w + sx;
    let gs2 = gs.update(kk, ng);
    let pv2 = pv.update(kk, Some((cx, cy)));
    lemma_cell_index(sx, sy, w, g.h as int);
    assert(kk != ks);
    lemma_cell_index(cx as int, cy as int, w, g.h as int);
    assert(cy * w + cx != kk);
    assert(pred_ok(g, tx, ty, gs2, cl, kk, (cx, cy)));
    assert forall|k: int| 0 <= k < n && (#[trigger] pv2[k]) is Some implies pred_ok(g, tx, ty, gs2, cl, k, pv2[k].unwrap()) by {
        if k != kk {
            assert(pred_ok(g, tx, ty, gs, cl, k, pv[k].unwrap()));
            let p = pv[k].unwrap();
            let pk = p.1 * w + p.0;
            lemma_cell_index(p.0 as int, p.1 as int, w, g.h as int);
            assert(cl[pk]);
            assert(pk != kk);
        }
    }
    assert forall|i: int| 0 <= i < open.len() implies node_ok(g, gs2, cl, #[trigger] open[i]) by {
        assert(node_ok(g, gs, cl, open[i]));
        let o = open[i];
        let ko = o.y * w + o.x;
        lemma_cell_index(o.x as int, o.y as int, w, g.h as int);
        assert(gs2[ko] <= gs[ko]);
    }
    assert forall|k: int| 0 <= k < n implies (0 <= #[trigger] gs2[k] <= 14 * count_true(cl) || gs2[k] == i64::MAX) by {
        assert(0 <= gs[k] <= 14 * count_true(cl) || gs[k] == i64::MAX);
    }
    assert forall|k: int| 0 <= k < n && #[trigger] gs2[k] != i64::MAX && k != ks implies pv2[k] is Some by {
        if k != kk {
            assert(gs[k] != i64::MAX);
        }
    }
    assert forall|k: int| 0 <= k < n && #[trigger] cl[k] implies gs2[k] != i64::MAX by {
        assert(gs[k] != i64::MAX);
    }
    assert(gs2.len() == n && pv2.len() == n && cl.len() == n);
    assert(gs2[ks] == 0);
    assert(pv2[ks] is None);
}

/// Walks the predecessor chain back from the target and returns it start-first.
fn rebuild(
    g: &GameState,
    sx: i32,
    sy: i32,
    tx: i32,
    ty: i32,
    gscore: &Vec<i64>,
    prev: &Vec<Option<(i32, i32)>>,
    closed: &Vec<bool>,
) -> (r: Vec<(i32, i32)>)
    requires
        g.wf(),
        g.inb(sx as int, sy as int),
        g.inb(tx as int, ty as int),
        !(sx == tx && sy == ty),
        search_inv(*g, sx as int, sy as int, tx as int, ty as int, gscore@, prev@, closed@),
        closed@[ty * g.w + tx],
    ensures
        path_valid(*g, sx as int, sy as int, tx as int, ty as int, r@),
        r@ == trace_back(prev@, g.w as int, sx as int, sy as int, tx as int, ty as int, (14 * (g.w * g.h) + 1) as nat),
        !r@.contains((sx, sy)),
{
    let w = g.w;
    let ghost kt = ty * w + tx;
    let ghost fuel = 14 * (g.w * g.h) + 1;
    proof {
        lemma_cell_index(tx as int, ty as int, w as int, g.h as int);
        lemma_cell_index(sx as int, sy as int, w as int, g.h as int);
        lemma_count_true_le(closed@);
        assert(0 <= gscore@[kt] <= 14 * count_true(closed@));
        assert(14 * count_true(closed@) <= 14 * (g.w * g.h));
        assert(trace_back(prev@, w as int, sx as int, sy as int, tx as int, ty as int, fuel as nat) =~= trace_back(
            prev@,
            w as int,
            sx as int,
            sy as int,
            tx as int,
            ty as int,
            fuel as nat,
        ) + reversed(Seq::<(i32, i32)>::empty()));
    }
    let mut rev: Vec<(i32, i32)> = Vec::new();
    let mut cx = tx;
    let mut cy = ty;
    while !(cx == sx && cy == sy)
        invariant
            g.wf(),
            w == g.w,
            g.inb(sx as int, sy as int),
            g.inb(tx as int, ty as int),
            g.inb(cx as int, cy as int),
            kt == ty * w + tx,
            search_inv(*g, sx as int, sy as int, tx as int, ty as int, gscore@, prev@, closed@),
            closed@[cy * w + cx],
            rev@.len() == 0 ==> cx == tx && cy == ty,
            rev@.len() > 0 ==> rev@[0] == (tx, ty) && cheb_spec(
                rev@.last().0 as int,
                rev@.last().1 as int,
                cx as int,
                cy as int,
            ) == 1 && gscore@[cy * w + cx] < gscore@[kt],
            forall|i: int|
                0 < i < rev@.len() ==> cheb_spec(
                    rev@[i - 1].0 as int,
                    rev@[i - 1].1 as int,
                    (#[trigger] rev@[i]).0 as int,
                    rev@[i].1 as int,
                ) == 1,
            forall|i: int| 0 <= i < rev@.len() ==> walkable_spec(*g, (#[trigger] rev@[i]).0 as int, rev@[i].1 as int),
            forall|i: int| 0 < i < rev@.len() ==> clean_cell(*g, (#[trigger] rev@[i]).0 as int, rev@[i].1 as int),
            fuel == 14 * (g.w * g.h) + 1,
            forall|i: int| 0 <= i < rev@.len() ==> #[trigger] rev@[i] != (sx, sy),
            0 <= gscore@[kt] <= 14 * (g.w * g.h),
            rev@.len() + gscore@[cy * w + cx] <= gscore@[kt],
            trace_back(prev@, w as int, sx as int, sy as int, tx as int, ty as int, fuel as nat) == trace_back(
                prev@,
                w as int,
                sx as int,
                sy as int,
                cx as int,
                cy as int,
                (fuel - rev@.len()) as nat,
            ) + reversed(rev@),
        decreases gscore@[cy * w + cx],
    {
        let ghost rv0 = rev@;
        let ghost (cx0, cy0) = (cx as int, cy as int);
        proof {
            lemma_cell_index(cx as int, cy as int, w as int, g.h as int);
            lemma_cell_index(sx as int, sy as int, w as int, g.h as int);
        }
        let k: usize = (cy * w + cx) as usize;
        let ghost ks = sy * w + sx;
        proof {
            if k as int == ks {
                assert(cx == sx && cy == sy);
            }
            if rev@.len() > 0 && cx == tx && cy == ty {
                assert(false);
            }
        }
        let p = match prev[k] {
            Some(p) => p,
            None => {
                proof {
                    assert(false);
                }
                (cx, cy)
            },
        };
        proof {
            assert(pred_ok(*g, tx as int, ty as int, gscore@, closed@, k as int, p));
            lemma_cell_index(p.0 as int, p.1 as int, w as int, g.h as int);
        }
        rev.push((cx, cy));
        cx = p.0;
        cy = p.1;
        proof {
            assert(0 <= gscore@[k as int]);
            let f0 = (fuel - rv0.len()) as nat;
            assert(f0 > 0);
            assert(prev@[cell_k(cx0, cy0, w as int)] == Some(p));
            assert(trace_back(prev@, w as int, sx as int, sy as int, cx0, cy0, f0) == trace_back(
                prev@,
                w as int,
                sx as int,
                sy as int,
                cx as int,
                cy as int,
                (f0 - 1) as nat,
            ).push((cx0 as i32, cy0 as i32)));
            assert(reversed(rev@) =~= seq![(cx0 as i32, cy0 as i32)] + reversed(rv0));
            assert(trace_back(prev@, w as int, sx as int, sy as int, cx0, cy0, f0).push((cx0 as i32, cy0 as i32)) + reversed(rv0)
                =~= trace_back(prev@, w as int, sx as int, sy as int, cx0, cy0, f0) + reversed(rev@)) by {
            }
        }
    }
    let mut out: Vec<(i32, i32)> = Vec::new();
    let mut j: usize = rev.len();
    while j > 0
        invariant
            j <= rev@.len(),
            out@.len() == rev@.len() - j,
            forall|i: int| 0 <= i < out@.len() ==> #[trigger] out@[i] == rev@[rev@.len() - 1 - i],
        decreases j,
    {
        j = j - 1;
        out.push(rev[j]);
    }
    proof {
        let m = rev@.len() as int;
        assert(out@ =~= reversed(rev@));
        assert forall|i: int| 0 <= i < out@.len() implies #[trigger] out@[i] != (sx, sy) by {
            assert(out@[i] == rev@[m - 1 - i]);
        }
        assert(m > 0);
        assert(out@.last() == rev@[0]);
        assert(out@[0] == rev@.last());
        assert forall|i: int| 0 < i < out@.len() implies cheb_spec(
            out@[i - 1].0 as int,
            out@[i - 1].1 as int,
            (#[trigger] out@[i]).0 as int,
            out@[i].1 as int,
        ) == 1 by {
            assert(out@[i - 1] == rev@[m - i]);
            assert(out@[i] == rev@[m - 1 - i]);
            assert(cheb_spec(
                rev@[m - i - 1].0 as int,
                rev@[m - i - 1].1 as int,
                rev@[m - i].0 as int,
                rev@[m - i].1 as int,
            ) == 1);
        }
        assert forall|i: int| 0 <= i < out@.len() implies walkable_spec(*g, (#[trigger] out@[i]).0 as int, out@[i].1 as int) by {
            assert(out@[i] == rev@[m - 1 - i]);
        }
        assert forall|i: int| 0 <= i < out@.len() - 1 implies clean_cell(*g, (#[trigger] out@[i]).0 as int, out@[i].1 as int) by {
            assert(out@[i] == rev@[m - 1 - i]);
        }
    }
    out
}

} // verus!

verus! {

/// Forced movement keeps every entity's time, kind and id.
pub proof fn lemma_push_times(g: GameState, idx: int, t: TierTable)
    requires
        0 <= idx < g.entities@.len(),
        g.entities@[idx].kind != Kind::Mage,
    ensures
        times_kept(g.entities@, push_ents(g, idx, t)),
        frame_kept(g.entities@, push_ents(g, idx, t)),
{
    let s = g.entities@;
    let (nx, ny) = push_target(s, idx);
    lemma_first_index(s, mage_pred());
    if s[idx].kind != Kind::Boss {
        if !cell_free_s(g, s, nx, ny) {
            lemma_damage_times(s, idx, PUSH_CRASH, t);
        } else {
            let m = moved_to(s, idx, nx, ny);
            match hazard_dmg(g, nx, ny) {
                Some(a) => lemma_damage_times(m, idx, a, t),
                None => {},
            }
            lemma_times_kept_trans(s, m, after_hazard(g, m, idx, nx, ny, t));
            lemma_frame_kept_trans(s, m, after_hazard(g, m, idx, nx, ny, t));
        }
    }
}

pub proof fn lemma_shove_times(g: GameState, s: Seq<Entity>, idx: int, dx: int, dy: int, t: TierTable)
    requires
        0 <= idx < s.len(),
        s[idx].kind != Kind::Mage,
    ensures
        times_kept(s, shove_ents_s(g, s, idx, dx, dy, t)),
        frame_kept(s, shove_ents_s(g, s, idx, dx, dy, t)),
{
    let (nx, ny) = (s[idx].x + dx, s[idx].y + dy);
    if !((dx == 0 && dy == 0) || !cell_free_s(g, s, nx, ny)) {
        let m = moved_to(s, idx, nx, ny);
        match hazard_dmg(g, nx, ny) {
            Some(a) => lemma_damage_times(m, idx, a, t),
            None => {},
        }
        lemma_times_kept_trans(s, m, after_hazard(g, m, idx, nx, ny, t));
        lemma_frame_kept_trans(s, m, after_hazard(g, m, idx, nx, ny, t));
    }
}

proof fn lemma_pull_loop_times(g: GameState, s: Seq<Entity>, idx: int, k: nat, t: TierTable)
    requires
        0 <= idx < s.len(),
        s[idx].kind != Kind::Mage,
    ensures
        times_kept(s, pull_loop(g, s, idx, k, t).0),
        frame_kept(s, pull_loop(g, s, idx, k, t).0),
    decreases k,
{
    lemma_first_index(s, mage_pred());
    if k > 0 {
        let m = s[mage_index_s(s)];
        let e = s[idx];
        let nx = e.x + sign_spec(m.x - e.x);
        let ny = e.y + sign_spec(m.y - e.y);
        if !(nx == m.x && ny == m.y) && cell_free_s(g, s, nx, ny) {
            let s1 = moved_to(s, idx, nx, ny);
            match hazard_dmg(g, nx, ny) {
                Some(a) => {
                    lemma_damage_times(s1, idx, a, t);
                    lemma_times_kept_trans(s, s1, damage_ents(s1, idx, a, t));
                    lemma_frame_kept_trans(s, s1, damage_ents(s1, idx, a, t));
                },
                None => {
                    lemma_pull_loop_times(g, s1, idx, (k - 1) as nat, t);
                    lemma_times_kept_trans(s, s1, pull_loop(g, s1, idx, (k - 1) as nat, t).0);
                    lemma_frame_kept_trans(s, s1, pull_loop(g, s1, idx, (k - 1) as nat, t).0);
                },
            }
        }
    }
}

pub proof fn lemma_pull_times(g: GameState, idx: int, t: TierTable)
    requires
        0 <= idx < g.entities@.len(),
        g.entities@[idx].kind != Kind::Mage,
    ensures
        times_kept(g.entities@, pull_ents(g, idx, t)),
        frame_kept(g.entities@, pull_ents(g, idx, t)),
{
    if g.entities@[idx].kind != Kind::Boss {
        lemma_pull_loop_times(g, g.entities@, idx, 2, t);
        let r = pull_loop(g, g.entities@, idx, 2, t).0;
        lemma_first_index(r, mage_pred());
    }
}

pub proof fn lemma_mage_move_times(g: GameState, x: int, y: int, t: TierTable)
    requires
        g.has_mage(),
    ensures
        times_kept(g.entities@, mage_move_ents(g, x, y, t)),
        mage_move_ents(g, x, y, t)[g.mage_index()].x == x as i32,
        mage_move_ents(g, x, y, t)[g.mage_index()].y == y as i32,
        mage_move_ents(g, x, y, t)[g.mage_index()].path == g.mage_spec().path,
        crate::state::chan_target(mage_move_ents(g, x, y, t)[g.mage_index()].channel) == crate::state::chan_target(
            g.mage_spec().channel,
        ),
{
    let s = g.entities@;
    lemma_first_index(s, mage_pred());
    let mi = mage_index_s(s);
    let s1 = moved_to(s, mi, x, y);
    let s2 = if g.tile(x, y) == Tile::Spike {
        damage_ents(s1, mi, SPIKE_DMG, t)
    } else {
        s1
    };
    lemma_damage_times(s1, mi, SPIKE_DMG, t);
    lemma_damage_times(s2, mi, FIRE_DOT, t);
    lemma_times_kept_trans(s, s1, s2);
    let s3 = if g.fire_at(x, y) > 0 {
        damage_ents(s2, mi, FIRE_DOT, t)
    } else {
        s2
    };
    lemma_times_kept_trans(s, s2, s3);
}

} // verus!

verus! {

/// Boards that read alike wherever a search looks (see `same_state`).
pub open spec fn reads_alike(a: GameState, b: GameState) -> bool {
    &&& a.w == b.w
    &&& a.h == b.h
    &&& forall|x: int, y: int| #[trigger] a.inb(x, y) ==> a.tile(x, y) == b.tile(x, y) && a.fire_at(x, y) == b.fire_at(x, y)
    &&& forall|x: int, y: int| #[trigger] a.ent_at(x, y) == b.ent_at(x, y)
}

proof fn lemma_relax_alike(a: GameState, b: GameState, tx: int, ty: int, s: Search, c: Node, d: int)
    requires
        reads_alike(a, b),
    ensures
        relax(a, tx, ty, s, c, d) == relax(b, tx, ty, s, c, d),
{
    let x = nbx(c.x as int, d);
    let y = nby(c.y as int, d);
    assert(a.inb(x, y) == b.inb(x, y));
    assert(a.ent_at(x, y) == b.ent_at(x, y));
}

proof fn lemma_expand_alike(a: GameState, b: GameState, tx: int, ty: int, s: Search, c: Node, d: int)
    requires
        reads_alike(a, b),
    ensures
        expand_upto(a, tx, ty, s, c, d) == expand_upto(b, tx, ty, s, c, d),
    decreases d,
{
    if d > 0 {
        lemma_expand_alike(a, b, tx, ty, s, c, d - 1);
        lemma_relax_alike(a, b, tx, ty, expand_upto(a, tx, ty, s, c, d - 1), c, d - 1);
    }
}

proof fn lemma_search_alike(a: GameState, b: GameState, sx: int, sy: int, tx: int, ty: int, k: nat)
    requires
        reads_alike(a, b),
    ensures
        search_after(a, sx, sy, tx, ty, k) == search_after(b, sx, sy, tx, ty, k),
    decreases k,
{
    if k > 0 {
        lemma_search_alike(a, b, sx, sy, tx, ty, (k - 1) as nat);
        let s = search_after(a, sx, sy, tx, ty, (k - 1) as nat);
        if !(s.hit || s.open.len() == 0) {
            let bi = best_upto(s.open, s.open.len() as int);
            let c = s.open[bi];
            let ck = cell_k(c.x as int, c.y as int, a.w as int);
            let s2 = Search { cl: s.cl.update(ck, true), open: s.open.remove(bi), ..s };
            lemma_expand_alike(a, b, tx, ty, s2, c, 9);
        }
    }
}

/// Boards that read alike give the same path.
pub proof fn lemma_astar_alike(a: GameState, b: GameState, sx: int, sy: int, tx: int, ty: int)
    requires
        reads_alike(a, b),
    ensures
        astar_path(a, sx, sy, tx, ty) == astar_path(b, sx, sy, tx, ty),
{
    lemma_search_alike(a, b, sx, sy, tx, ty, (9 * (a.w * a.h) + 1) as nat);
}

/// Boards that read alike have the same paths.
pub proof fn lemma_path_exists_alike(a: GameState, b: GameState, sx: int, sy: int, tx: int, ty: int)
    requires
        reads_alike(a, b),
    ensures
        path_exists(a, sx, sy, tx, ty) == path_exists(b, sx, sy, tx, ty),
{
    assert forall|p: Seq<(i32, i32)>| path_valid(a, sx, sy, tx, ty, p) == path_valid(b, sx, sy, tx, ty, p) by {
        assert forall|i: int| 0 <= i < p.len() implies walkable_spec(a, (#[trigger] p[i]).0 as int, p[i].1 as int)
            == walkable_spec(b, p[i].0 as int, p[i].1 as int) by {
            assert(a.inb(p[i].0 as int, p[i].1 as int) == b.inb(p[i].0 as int, p[i].1 as int));
        }
        if path_valid(a, sx, sy, tx, ty, p) || path_valid(b, sx, sy, tx, ty, p) {
            assert forall|i: int| 0 <= i < p.len() - 1 implies clean_cell(a, (#[trigger] p[i]).0 as int, p[i].1 as int)
                == clean_cell(b, p[i].0 as int, p[i].1 as int) by {
                assert(a.inb(p[i].0 as int, p[i].1 as int) == b.inb(p[i].0 as int, p[i].1 as int));
                assert(a.ent_at(p[i].0 as int, p[i].1 as int) == b.ent_at(p[i].0 as int, p[i].1 as int));
            }
        }
    }
    if path_exists(a, sx, sy, tx, ty) {
        let p = choose|p: Seq<(i32, i32)>| #[trigger] path_valid(a, sx, sy, tx, ty, p);
        assert(path_valid(b, sx, sy, tx, ty, p));
    }
    if path_exists(b, sx, sy, tx, ty) {
        let p = choose|p: Seq<(i32, i32)>| #[trigger] path_valid(b, sx, sy, tx, ty, p);
        assert(path_valid(a, sx, sy, tx, ty, p));
    }
}

} // verus!
