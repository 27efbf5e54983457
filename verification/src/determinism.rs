//! Determinism: a step has one outcome. Two states are the same when they hold the same
//! content, whatever vectors hold it (`same_state`); every relation a step goes through
//! gives the same outcome from the same state, so `step` is a function of its inputs.
//! From there: a run is a function of its seed and operations, replaying the agent's
//! operations gives back what the agent played, and the agent's trace is one text.
use crate::damage::{damage_ents, damage_events, TierTable};
use crate::events::{Event, Status};
use crate::state::{first_index, count_alive_enemies, is_alive, mage_index_s, occupies, Channel, Entity, GameState, Kind};
use crate::terrain::{burn_all, cell_of, lit_after_wood, lit_list, near_lit, tick_cell};
use crate::time_chain::{is_next_actor, key_lt};
use crate::terminal_spec;
use crate::turns::{chain_rel, chain_round, enemy_turn, mage_turn, returns_control, step_hurts, stepped, ticked, turn_ended, walk_popped, walk_turn, with_ents};
use crate::movement::{adj_enemy, mage_move_board, mage_move_ents, mage_move_events, shove_ents_s, shove_events_s};
use crate::spells::{cast_post, enemy_at_s, heavy_hits, heavy_result, heavy_shoves, in_plus, Spell, Target};
use crate::terrain::blast_step;
use crate::turns::{acted, auto_walk, blasted, cast_done, released, walk_set};
use crate::spells::{kept_frame, is_channel_spec, validate_spec, enemy_at_spec, oil_target};
use crate::movement::{reads_alike, lemma_astar_alike, lemma_path_exists_alike, push_ents, push_events, pull_ents, pull_events, pull_loop, push_target, stun_after, after_hazard, hazard_events};
use crate::grid::{first_on_ray, ray_hit, ray_x};
use crate::terrain::{oil_path, oil_reach, reach_set, ignite_ents, ignited, ignite_kills, ignite_bonus, flood_events, flood_order, flood_after, flood_step, cell_burn_events, fire_after_ignite};
use crate::movement::astar_path;
use crate::roguelite::{dropped, lines, loaded, picked, PickResult, RunState};
use crate::harness::{next_rooms, op_leads, play, replay, run_after, run_trace, shows, RunOp, Snapshot, Trace};
use crate::config::ROOMS;
use crate::spells::Reject;
use crate::Action;
use crate::spells::same_board;
use crate::time_chain::advanced;
use crate::ai::{act_post, act_result, announces, slam_covers, step_ok, strikes_mage, toward_cell, toward_scan};
use crate::grid::{cells_in_bounds, cheb_spec, los_spec, sight_blocked, walkable_spec};
use crate::movement::{hazard_dmg, moved_to};
use crate::trace::{alive_idx, name_row, quoted_id, state_text, unit_text};
use crate::spells::{id_slot, id_sorted, spell_name};
use crate::render::{int_dec, joined};
use crate::state::Tile;
use vstd::prelude::*;
use vstd::string::StringSliceAdditionalSpecFns;

verus! {

/// The content of an optional cell list.
pub open spec fn cells_view(o: Option<Vec<(i32, i32)>>) -> Option<Seq<(i32, i32)>> {
    match o {
        Some(v) => Some(v@),
        None => None,
    }
}

/// The content of a charge.
pub open spec fn chan_view(o: Option<Channel>) -> Option<(Seq<char>, i32, i32, bool, bool)> {
    match o {
        Some(c) => Some((c.spell@, c.tx, c.ty, c.ready, c.interrupted)),
        None => None,
    }
}

/// Two entities hold the same content.
pub open spec fn same_ent(a: Entity, b: Entity) -> bool {
    &&& a.id == b.id
    &&& a.kind == b.kind
    &&& a.x == b.x
    &&& a.y == b.y
    &&& a.hp == b.hp
    &&& a.maxhp == b.maxhp
    &&& a.speed_halves == b.speed_halves
    &&& a.time == b.time
    &&& a.haste_turns == b.haste_turns
    &&& a.stun == b.stun
    &&& chan_view(a.channel) == chan_view(b.channel)
    &&& cells_view(a.path) == cells_view(b.path)
    &&& a.pending_slam == b.pending_slam
    &&& a.exhausted == b.exhausted
    &&& cells_view(a.slam) == cells_view(b.slam)
}

/// Two entity lists hold the same content.
pub open spec fn same_ents(s: Seq<Entity>, t: Seq<Entity>) -> bool {
    &&& s.len() == t.len()
    &&& forall|i: int| 0 <= i < s.len() ==> same_ent(#[trigger] s[i], t[i])
}

/// Two grids hold the same rows.
pub open spec fn same_rows<T>(a: Seq<Vec<T>>, b: Seq<Vec<T>>) -> bool {
    &&& a.len() == b.len()
    &&& forall|y: int| 0 <= y < a.len() ==> (#[trigger] a[y])@ == b[y]@
}

/// Two battle states hold the same content.
pub open spec fn same_state(a: GameState, b: GameState) -> bool {
    &&& a.w == b.w
    &&& a.h == b.h
    &&& same_rows(a.tiles@, b.tiles@)
    &&& same_rows(a.fire@, b.fire@)
    &&& same_rows(a.burn_t@, b.burn_t@)
    &&& same_ents(a.entities@, b.entities@)
    &&& a.room_idx == b.room_idx
    &&& a.core == b.core
}

/// Two boards hold the same cells.
pub open spec fn same_grid(a: GameState, b: GameState) -> bool {
    &&& a.w == b.w
    &&& a.h == b.h
    &&& same_rows(a.tiles@, b.tiles@)
    &&& same_rows(a.fire@, b.fire@)
    &&& same_rows(a.burn_t@, b.burn_t@)
}

/// One cell of boards with the same cells.
pub proof fn lemma_at_grid(a: GameState, b: GameState, x: int, y: int)
    requires
        same_grid(a, b),
        a.grids_ok(),
    ensures
        a.inb(x, y) == b.inb(x, y),
        a.inb(x, y) ==> a.tile(x, y) == b.tile(x, y) && a.fire_at(x, y) == b.fire_at(x, y) && a.burn_at(x, y)
            == b.burn_at(x, y),
        walkable_spec(a, x, y) == walkable_spec(b, x, y),
        a.inb(x, y) ==> hazard_dmg(a, x, y) == hazard_dmg(b, x, y),
{
    if a.inb(x, y) {
        assert(a.tiles@[y]@ == b.tiles@[y]@);
        assert(a.fire@[y]@ == b.fire@[y]@);
        assert(a.burn_t@[y]@ == b.burn_t@[y]@);
    }
}

/// `first_index` reads only what its predicate reads.
pub proof fn lemma_first_index_same(s: Seq<Entity>, t: Seq<Entity>, p: spec_fn(Entity) -> bool)
    requires
        s.len() == t.len(),
        forall|i: int| 0 <= i < s.len() ==> p(#[trigger] s[i]) == p(t[i]),
    ensures
        first_index(s, p) == first_index(t, p),
    decreases s.len(),
{
    if s.len() > 0 {
        assert(p(s[0]) == p(t[0]));
        let (s1, t1) = (s.drop_first(), t.drop_first());
        assert forall|i: int| 0 <= i < s1.len() implies p(#[trigger] s1[i]) == p(t1[i]) by {
            assert(s1[i] == s[i + 1] && t1[i] == t[i + 1]);
        }
        lemma_first_index_same(s1, t1, p);
    }
}

pub proof fn lemma_count_same(s: Seq<Entity>, t: Seq<Entity>)
    requires
        same_ents(s, t),
    ensures
        count_alive_enemies(s) == count_alive_enemies(t),
    decreases s.len(),
{
    if s.len() > 0 {
        let (s1, t1) = (s.drop_last(), t.drop_last());
        assert forall|i: int| 0 <= i < s1.len() implies same_ent(#[trigger] s1[i], t1[i]) by {
            assert(same_ent(s[i], t[i]));
        }
        lemma_count_same(s1, t1);
        assert(same_ent(s[s.len() - 1], t[t.len() - 1]));
    }
}

/// The same lists find the mage at the same place, with the same content.
pub proof fn lemma_mage_same(s: Seq<Entity>, t: Seq<Entity>)
    requires
        same_ents(s, t),
    ensures
        mage_index_s(s) == mage_index_s(t),
        0 <= mage_index_s(s) < s.len() ==> same_ent(s[mage_index_s(s)], t[mage_index_s(s)]),
{
    lemma_first_index_same(s, t, crate::state::mage_pred());
}

/// Some alive entity makes a next actor.
pub proof fn lemma_next_actor_exists(s: Seq<Entity>)
    requires
        exists|j: int| 0 <= j < s.len() && is_alive(#[trigger] s[j]),
    ensures
        exists|i: int| is_next_actor(s, i),
    decreases s.len(),
{
    let n = s.len() - 1;
    let p = s.drop_last();
    if exists|j: int| 0 <= j < p.len() && is_alive(#[trigger] p[j]) {
        lemma_next_actor_exists(p);
        let i0 = choose|i: int| is_next_actor(p, i);
        assert(s[i0] == p[i0]);
        if is_alive(s[n]) && key_lt(s[n], s[i0]) {
            assert forall|j: int| 0 <= j < s.len() && is_alive(#[trigger] s[j]) implies !key_lt(s[j], s[n]) by {
                if j < n {
                    assert(p[j] == s[j]);
                }
            }
            assert forall|j: int| 0 <= j < n && is_alive(#[trigger] s[j]) implies key_lt(s[n], s[j]) by {
                assert(p[j] == s[j]);
                assert(!key_lt(p[j], p[i0]));
            }
            assert(is_next_actor(s, n));
        } else {
            assert forall|j: int| 0 <= j < s.len() && is_alive(#[trigger] s[j]) implies !key_lt(s[j], s[i0]) by {
                if j < n {
                    assert(p[j] == s[j]);
                }
            }
            assert forall|j: int| 0 <= j < i0 && is_alive(#[trigger] s[j]) implies key_lt(s[i0], s[j]) by {
                assert(p[j] == s[j]);
            }
            assert(is_next_actor(s, i0));
        }
    } else {
        let j0 = choose|j: int| 0 <= j < s.len() && is_alive(#[trigger] s[j]);
        if j0 < n {
            assert(p[j0] == s[j0]);
        }
        assert(is_alive(s[n]));
        assert forall|j: int| 0 <= j < s.len() && is_alive(#[trigger] s[j]) implies !key_lt(s[j], s[n]) by {
            if j < n {
                assert(p[j] == s[j]);
            }
        }
        assert forall|j: int| 0 <= j < n && is_alive(#[trigger] s[j]) implies key_lt(s[n], s[j]) by {
            assert(p[j] == s[j]);
        }
        assert(is_next_actor(s, n));
    }
}

/// The same lists choose the same next actor.
pub proof fn lemma_next_actor_same(s: Seq<Entity>, t: Seq<Entity>)
    requires
        same_ents(s, t),
        exists|j: int| 0 <= j < s.len() && is_alive(#[trigger] s[j]),
    ensures
        (choose|i: int| is_next_actor(s, i)) == (choose|i: int| is_next_actor(t, i)),
        is_next_actor(s, choose|i: int| is_next_actor(s, i)),
{
    lemma_next_actor_exists(s);
    let i = choose|i: int| is_next_actor(s, i);
    assert(is_next_actor(t, i)) by {
        assert(same_ent(s[i], t[i]));
        assert forall|j: int| 0 <= j < t.len() && is_alive(#[trigger] t[j]) implies !key_lt(t[j], t[i]) by {
            assert(same_ent(s[j], t[j]));
        }
        assert forall|j: int| 0 <= j < i && is_alive(#[trigger] t[j]) implies key_lt(t[i], t[j]) by {
            assert(same_ent(s[j], t[j]));
        }
    }
    let k = choose|i: int| is_next_actor(t, i);
    crate::time_chain::law_next_actor_unique(t, i, k);
}


/// The same battle states end the same way.
pub proof fn lemma_terminal_same(a: GameState, b: GameState)
    requires
        same_state(a, b),
    ensures
        terminal_spec(a) == terminal_spec(b),
{
    let (s, t) = (a.entities@, b.entities@);
    lemma_mage_same(s, t);
    lemma_count_same(s, t);
    crate::state::lemma_first_index(s, crate::state::mage_pred());
    if s.len() == 0 {
        assert(s =~= t);
    } else {
        assert(same_ent(a.mage_spec(), b.mage_spec()));
    }
    assert(a.alive_enemy_count() == b.alive_enemy_count());
    lemma_first_index_same(s, t, crate::boss_pred());
    match first_index(s, crate::boss_pred()) {
        Some(i) => {
            crate::state::lemma_first_index(s, crate::boss_pred());
            assert(same_ent(s[i], t[i]));
        },
        None => {},
    }
}

/// A board of the right shape reads the same cells as a board with the same content.
pub proof fn lemma_cell_same(a: GameState, b: GameState, x: int, y: int)
    requires
        same_state(a, b),
        a.grids_ok(),
        a.inb(x, y),
    ensures
        cell_of(a, x, y) == cell_of(b, x, y),
{
    assert(a.tiles@[y]@ == b.tiles@[y]@);
    assert(a.fire@[y]@ == b.fire@[y]@);
    assert(a.burn_t@[y]@ == b.burn_t@[y]@);
}

/// The same content has the same shape.
pub proof fn lemma_grids_same(a: GameState, b: GameState)
    requires
        same_state(a, b),
        a.grids_ok(),
    ensures
        b.grids_ok(),
{
    assert forall|y: int| 0 <= y < b.h implies (#[trigger] b.tiles@[y])@.len() == b.w by {
        assert(a.tiles@[y]@ == b.tiles@[y]@);
    }
    assert forall|y: int| 0 <= y < b.h implies (#[trigger] b.fire@[y])@.len() == b.w by {
        assert(a.fire@[y]@ == b.fire@[y]@);
    }
    assert forall|y: int| 0 <= y < b.h implies (#[trigger] b.burn_t@[y])@.len() == b.w by {
        assert(a.burn_t@[y]@ == b.burn_t@[y]@);
    }
    assert forall|x: int, y: int|
        b.inb(x, y) && #[trigger] b.tile(x, y) == crate::state::Tile::WoodBurn implies b.burn_at(x, y) > i32::MIN by {
        lemma_cell_same(a, b, x, y);
    }
}

pub proof fn lemma_tick_same(a: GameState, b: GameState, x: int, y: int)
    requires
        same_state(a, b),
        a.grids_ok(),
        a.inb(x, y),
    ensures
        tick_cell(a, x, y) == tick_cell(b, x, y),
{
    lemma_cell_same(a, b, x, y);
    lemma_grids_same(a, b);
    if near_lit(a, x, y) {
        let (nx, ny) = choose|nx: int, ny: int|
            #[trigger] a.inb(nx, ny) && crate::grid::cheb_spec(x, y, nx, ny) == 1 && lit_after_wood(a, nx, ny);
        lemma_cell_same(a, b, nx, ny);
        assert(b.inb(nx, ny));
    }
    if near_lit(b, x, y) {
        let (nx, ny) = choose|nx: int, ny: int|
            #[trigger] b.inb(nx, ny) && crate::grid::cheb_spec(x, y, nx, ny) == 1 && lit_after_wood(b, nx, ny);
        lemma_cell_same(a, b, nx, ny);
        assert(a.inb(nx, ny));
    }
}

pub proof fn lemma_lit_list_same(a: GameState, b: GameState, k: int)
    requires
        same_state(a, b),
        a.grids_ok(),
        k <= a.w * a.h,
    ensures
        lit_list(a, k) == lit_list(b, k),
    decreases k,
{
    if k > 0 {
        lemma_lit_list_same(a, b, k - 1);
        let w = a.w as int;
        let h = a.h as int;
        let x = (k - 1) % w;
        let y = (k - 1) / w;
        assert(w > 0) by (nonlinear_arith)
            requires
                0 < k <= w * h,
                h >= 0,
                w >= 0,
        ;
        assert(0 <= x < w && 0 <= y < h) by (nonlinear_arith)
            requires
                0 < k <= w * h,
                w > 0,
                x == (k - 1) % w,
                y == (k - 1) / w,
        ;
        lemma_cell_same(a, b, x, y);
    }
}

/// Damage to the same entity of lists with the same content.
pub proof fn lemma_damage_same(s: Seq<Entity>, t: Seq<Entity>, i: int, amt: i32, tiers: TierTable)
    requires
        same_ents(s, t),
        0 <= i < s.len(),
    ensures
        same_ents(damage_ents(s, i, amt, tiers), damage_ents(t, i, amt, tiers)),
        damage_events(s, i, amt, tiers) == damage_events(t, i, amt, tiers),
{
    lemma_mage_same(s, t);
    crate::state::lemma_first_index(s, crate::state::mage_pred());
    assert(same_ent(s[i], t[i]));
    let mi = mage_index_s(s);
    assert(0 <= mi < s.len());
    assert(same_ent(s[mi], t[mi]));
    let (ds, dt) = (damage_ents(s, i, amt, tiers), damage_ents(t, i, amt, tiers));
    assert forall|j: int| 0 <= j < ds.len() implies same_ent(#[trigger] ds[j], dt[j]) by {
        assert(same_ent(s[j], t[j]));
    }
}

/// Fire damage on the same cells of lists with the same content.
pub proof fn lemma_burn_all_same(s: Seq<Entity>, t: Seq<Entity>, cells: Seq<(i32, i32)>, tiers: TierTable)
    requires
        same_ents(s, t),
    ensures
        same_ents(burn_all(s, cells, tiers).0, burn_all(t, cells, tiers).0),
        burn_all(s, cells, tiers).1 == burn_all(t, cells, tiers).1,
        burn_all(s, cells, tiers).2 == burn_all(t, cells, tiers).2,
        burn_all(s, cells, tiers).0.len() == s.len(),
    decreases cells.len(),
{
    if cells.len() > 0 {
        lemma_burn_all_same(s, t, cells.drop_last(), tiers);
        let p = burn_all(s, cells.drop_last(), tiers);
        let q = burn_all(t, cells.drop_last(), tiers);
        let c = cells.last();
        lemma_first_index_same(p.0, q.0, occupies(c.0 as int, c.1 as int));
        match first_index(p.0, occupies(c.0 as int, c.1 as int)) {
            Some(i) => {
                crate::state::lemma_first_index(p.0, occupies(c.0 as int, c.1 as int));
                lemma_damage_same(p.0, q.0, i, crate::config::FIRE_DOT, tiers);
                crate::damage::lemma_damage_others(p.0, i, crate::config::FIRE_DOT, tiers);
                assert(same_ent(p.0[i], q.0[i]));
            },
            None => {},
        }
    }
}

/// One cell of boards with the same content.
pub proof fn lemma_at(a: GameState, b: GameState, x: int, y: int)
    requires
        same_state(a, b),
        a.grids_ok(),
    ensures
        a.inb(x, y) == b.inb(x, y),
        a.inb(x, y) ==> a.tile(x, y) == b.tile(x, y) && a.fire_at(x, y) == b.fire_at(x, y) && a.burn_at(x, y)
            == b.burn_at(x, y),
        walkable_spec(a, x, y) == walkable_spec(b, x, y),
        sight_blocked(a, x, y) == sight_blocked(b, x, y),
        a.inb(x, y) ==> hazard_dmg(a, x, y) == hazard_dmg(b, x, y),
        a.ent_at(x, y) == b.ent_at(x, y),
{
    if a.inb(x, y) {
        lemma_cell_same(a, b, x, y);
    }
    let (s, t) = (a.entities@, b.entities@);
    assert forall|i: int| 0 <= i < s.len() implies (occupies(x, y))(#[trigger] s[i]) == (occupies(x, y))(t[i]) by {
        assert(same_ent(s[i], t[i]));
    }
    lemma_first_index_same(s, t, occupies(x, y));
}

pub proof fn lemma_toward_same(a: GameState, b: GameState, ex: int, ey: int, mx: int, my: int, k: int)
    requires
        same_state(a, b),
        a.grids_ok(),
    ensures
        toward_scan(a, ex, ey, mx, my, k) == toward_scan(b, ex, ey, mx, my, k),
    decreases k,
{
    if k > 0 {
        lemma_toward_same(a, b, ex, ey, mx, my, k - 1);
        let x = ex + crate::ai::step_off(k - 1).0;
        let y = ey + crate::ai::step_off(k - 1).1;
        lemma_at(a, b, x, y);
        assert(step_ok(a, x, y) == step_ok(b, x, y));
    }
}

pub proof fn lemma_los_same(a: GameState, b: GameState, x0: int, y0: int, x1: int, y1: int)
    requires
        same_state(a, b),
        a.grids_ok(),
    ensures
        los_spec(a, x0, y0, x1, y1) == los_spec(b, x0, y0, x1, y1),
{
    let n = cheb_spec(x0, y0, x1, y1);
    assert forall|i: int| 1 <= i < n implies sight_blocked(a, #[trigger] crate::grid::ray_x(x0, x1, i, n), crate::grid::ray_x(y0, y1, i, n))
        == sight_blocked(b, crate::grid::ray_x(x0, x1, i, n), crate::grid::ray_x(y0, y1, i, n)) by {
        lemma_at(a, b, crate::grid::ray_x(x0, x1, i, n), crate::grid::ray_x(y0, y1, i, n));
    }
}

pub proof fn lemma_cells_in_bounds_same(a: GameState, b: GameState, cx: int, cy: int, offs: Seq<(int, int)>)
    requires
        a.w == b.w,
        a.h == b.h,
    ensures
        cells_in_bounds(a, cx, cy, offs) == cells_in_bounds(b, cx, cy, offs),
    decreases offs.len(),
{
    if offs.len() > 0 {
        lemma_cells_in_bounds_same(a, b, cx, cy, offs.drop_last());
    }
}

/// Moving the same entity of lists with the same content.
pub proof fn lemma_moved_same(s: Seq<Entity>, t: Seq<Entity>, i: int, x: int, y: int)
    requires
        same_ents(s, t),
        0 <= i < s.len(),
    ensures
        same_ents(moved_to(s, i, x, y), moved_to(t, i, x, y)),
        crate::movement::moved_event(s, i, x, y) == crate::movement::moved_event(t, i, x, y),
{
    assert(same_ent(s[i], t[i]));
    let (ms, mt) = (moved_to(s, i, x, y), moved_to(t, i, x, y));
    assert forall|j: int| 0 <= j < ms.len() implies same_ent(#[trigger] ms[j], mt[j]) by {
        assert(same_ent(s[j], t[j]));
    }
}

/// An enemy turn of battles with the same content.
pub proof fn lemma_act_result_same(a: GameState, b: GameState, idx: int, tiers: TierTable)
    requires
        same_state(a, b),
        a.grids_ok(),
        0 <= idx < a.entities@.len(),
    ensures
        same_ents(act_result(a, idx, tiers).0, act_result(b, idx, tiers).0),
        act_result(a, idx, tiers).1 == act_result(b, idx, tiers).1,
        act_result(a, idx, tiers).0.len() == a.entities@.len(),
        strikes_mage(a, idx) == strikes_mage(b, idx),
{
    let (s, t) = (a.entities@, b.entities@);
    lemma_mage_same(s, t);
    lemma_mi_range(s);
    let mi = mage_index_s(s);
    let e = s[idx];
    let m = s[mi];
    assert(same_ent(e, t[idx]));
    assert(same_ent(m, t[mi]));
    lemma_damage_same(s, t, mi, crate::config::IMP_DMG, tiers);
    lemma_damage_same(s, t, mi, crate::config::EYE_DMG, tiers);
    crate::damage::lemma_damage_others(s, mi, crate::config::IMP_DMG, tiers);
    crate::damage::lemma_damage_others(s, mi, crate::config::EYE_DMG, tiers);
    lemma_los_same(a, b, e.x as int, e.y as int, m.x as int, m.y as int);
    lemma_toward_same(a, b, e.x as int, e.y as int, m.x as int, m.y as int, 8);
    match toward_cell(a, idx) {
        Some(c) => lemma_moved_same(s, t, idx, c.0, c.1),
        None => {},
    }
    let s1 = s.update(idx, Entity { exhausted: false, ..e });
    let t1 = t.update(idx, Entity { exhausted: false, ..t[idx] });
    assert forall|j: int| 0 <= j < s1.len() implies same_ent(#[trigger] s1[j], t1[j]) by {
        assert(same_ent(s[j], t[j]));
    }
    lemma_damage_same(s1, t1, mi, crate::config::BOSS_SLAM, tiers);
    assert(slam_covers(e, m.x, m.y) == slam_covers(t[idx], t[mi].x, t[mi].y));
    crate::damage::lemma_damage_others(s1, mi, crate::config::BOSS_SLAM, tiers);
    crate::damage::lemma_damage_others(t1, mi, crate::config::BOSS_SLAM, tiers);
    let s2 = if slam_covers(e, m.x, m.y) { damage_ents(s1, mi, crate::config::BOSS_SLAM, tiers) } else { s1 };
    let t2 = if slam_covers(e, m.x, m.y) { damage_ents(t1, mi, crate::config::BOSS_SLAM, tiers) } else { t1 };
    assert(s2.len() == s.len() && t2.len() == s.len());
    assert(same_ent(s2[idx], t2[idx]));
    let s3 = s2.update(idx, Entity { slam: None, pending_slam: false, exhausted: true, ..s2[idx] });
    let t3 = t2.update(idx, Entity { slam: None, pending_slam: false, exhausted: true, ..t2[idx] });
    assert forall|j: int| 0 <= j < s3.len() implies same_ent(#[trigger] s3[j], t3[j]) by {
        assert(same_ent(s2[j], t2[j]));
    }
    let s4 = s.update(idx, Entity { stun: (e.stun - 1) as u32, ..e });
    let t4 = t.update(idx, Entity { stun: (e.stun - 1) as u32, ..t[idx] });
    assert forall|j: int| 0 <= j < s4.len() implies same_ent(#[trigger] s4[j], t4[j]) by {
        assert(same_ent(s[j], t[j]));
    }
}

/// The golem's announcing turn from battles with the same content.
pub proof fn lemma_announces_same(a: GameState, a2: GameState, b1: GameState, b2: GameState, idx: int)
    requires
        same_state(a, a2),
        0 <= idx < a.entities@.len(),
        announces(a, b1, idx),
        announces(a2, b2, idx),
    ensures
        same_ents(b1.entities@, b2.entities@),
{
    let (s, t) = (a.entities@, a2.entities@);
    lemma_mage_same(s, t);
    lemma_mi_range(s);
    assert(same_ent(a.mage_spec(), a2.mage_spec()));
    assert(same_ent(s[idx], t[idx]));
    let m = a.mage_spec();
    lemma_cells_in_bounds_same(a, a2, m.x as int, m.y as int, crate::grid::slam_offsets());
    assert forall|j: int| 0 <= j < b1.entities@.len() implies same_ent(#[trigger] b1.entities@[j], b2.entities@[j]) by {
        assert(same_ent(s[j], t[j]));
    }
}

/// A non-empty list finds some entity as its mage.
pub proof fn lemma_mi_range(s: Seq<Entity>)
    requires
        s.len() > 0,
    ensures
        0 <= mage_index_s(s) < s.len(),
{
    crate::state::lemma_first_index(s, crate::state::mage_pred());
}

/// Battles with the same entities have the same mage.
pub proof fn lemma_mage_spec_same(a: GameState, b: GameState)
    requires
        same_ents(a.entities@, b.entities@),
    ensures
        a.mage_index() == b.mage_index(),
        same_ent(a.mage_spec(), b.mage_spec()),
{
    lemma_mage_same(a.entities@, b.entities@);
    if a.entities@.len() == 0 {
        assert(a.entities@ =~= b.entities@);
    } else {
        lemma_mi_range(a.entities@);
    }
}

/// Same content is kept by replacing the entities with the same content.
pub proof fn lemma_with_ents_same(a: GameState, a2: GameState, b: GameState, b2: GameState, s1: Seq<Entity>, s2: Seq<Entity>)
    requires
        same_state(a, a2),
        with_ents(a, b, s1),
        with_ents(a2, b2, s2),
        same_ents(s1, s2),
    ensures
        same_state(b, b2),
        a.grids_ok() ==> b.grids_ok(),
{
    if a.grids_ok() {
        lemma_board_ok(a, b);
    }
}

/// The same board keeps its shape.
pub proof fn lemma_board_ok(a: GameState, b: GameState)
    requires
        a.grids_ok(),
        same_board(a, b),
    ensures
        b.grids_ok(),
{
    assert forall|x: int, y: int| b.inb(x, y) && #[trigger] b.tile(x, y) == crate::state::Tile::WoodBurn implies b.burn_at(
        x,
        y,
    ) > i32::MIN by {
        assert(a.tile(x, y) == b.tile(x, y));
    }
}

/// Same content after ending the mage's turn.
pub proof fn lemma_turn_ended_same(a: GameState, a2: GameState, b: GameState, b2: GameState)
    requires
        same_state(a, a2),
        a.entities@.len() > 0,
        turn_ended(a, b),
        turn_ended(a2, b2),
    ensures
        same_state(b, b2),
        a.grids_ok() ==> b.grids_ok(),
        b.entities@.len() == a.entities@.len(),
{
    lemma_mage_spec_same(a, a2);
    lemma_mi_range(a.entities@);
    let (s, t) = (a.entities@, a2.entities@);
    let mi = a.mage_index();
    let (s1, t1) = (s.update(mi, advanced(a.mage_spec())), t.update(mi, advanced(a2.mage_spec())));
    assert forall|j: int| 0 <= j < s1.len() implies same_ent(#[trigger] s1[j], t1[j]) by {
        assert(same_ent(s[j], t[j]));
    }
    lemma_with_ents_same(a, a2, b, b2, s1, t1);
}

/// One fire tick of battles with the same content.
pub proof fn lemma_ticked_same(a: GameState, a2: GameState, b: GameState, b2: GameState, t: TierTable)
    requires
        same_state(a, a2),
        a.grids_ok(),
        ticked(a, b, t),
        ticked(a2, b2, t),
    ensures
        same_state(b, b2),
        b.grids_ok(),
{
    lemma_grids_same(a, a2);
    assert forall|x: int, y: int| a.inb(x, y) implies #[trigger] cell_of(b, x, y) == cell_of(b2, x, y) by {
        lemma_tick_same(a, a2, x, y);
    }
    lemma_rows_from_cells(b, b2);
    lemma_lit_list_same(a, a2, a.w * a.h);
    lemma_burn_all_same(a.entities@, a2.entities@, lit_list(a, a.w * a.h), t);
}

/// Boards of the right shape with the same cells hold the same rows.
pub proof fn lemma_rows_from_cells(b: GameState, b2: GameState)
    requires
        b.grids_ok(),
        b2.grids_ok(),
        b.w == b2.w,
        b.h == b2.h,
        forall|x: int, y: int| b.inb(x, y) ==> #[trigger] cell_of(b, x, y) == cell_of(b2, x, y),
    ensures
        same_rows(b.tiles@, b2.tiles@),
        same_rows(b.fire@, b2.fire@),
        same_rows(b.burn_t@, b2.burn_t@),
{
    assert forall|y: int| 0 <= y < b.tiles@.len() implies (#[trigger] b.tiles@[y])@ == b2.tiles@[y]@ by {
        assert forall|x: int| 0 <= x < b.w implies b.tiles@[y]@[x] == b2.tiles@[y]@[x] by {
            assert(cell_of(b, x, y) == cell_of(b2, x, y));
        }
        assert(b.tiles@[y]@ =~= b2.tiles@[y]@);
    }
    assert forall|y: int| 0 <= y < b.fire@.len() implies (#[trigger] b.fire@[y])@ == b2.fire@[y]@ by {
        assert forall|x: int| 0 <= x < b.w implies b.fire@[y]@[x] == b2.fire@[y]@[x] by {
            assert(cell_of(b, x, y) == cell_of(b2, x, y));
        }
        assert(b.fire@[y]@ =~= b2.fire@[y]@);
    }
    assert forall|y: int| 0 <= y < b.burn_t@.len() implies (#[trigger] b.burn_t@[y])@ == b2.burn_t@[y]@ by {
        assert forall|x: int| 0 <= x < b.w implies b.burn_t@[y]@[x] == b2.burn_t@[y]@[x] by {
            assert(cell_of(b, x, y) == cell_of(b2, x, y));
        }
        assert(b.burn_t@[y]@ =~= b2.burn_t@[y]@);
    }
}

/// One enemy turn of battles with the same content.
pub proof fn lemma_enemy_turn_same(
    g: GameState,
    g_: GameState,
    i: int,
    h: bool,
    e: Seq<Event>,
    t: TierTable,
    g2: GameState,
    h2: bool,
    e2: Seq<Event>,
    stop: Option<Status>,
    g2_: GameState,
    h2_: bool,
    e2_: Seq<Event>,
    stop_: Option<Status>,
)
    requires
        same_state(g, g_),
        g.grids_ok(),
        0 <= i < g.entities@.len(),
        enemy_turn(g, i, h, e, t, g2, h2, e2, stop),
        enemy_turn(g_, i, h, e, t, g2_, h2_, e2_, stop_),
    ensures
        same_state(g2, g2_),
        g2.grids_ok(),
        g2.entities@.len() == g.entities@.len(),
        h2 == h2_,
        e2 == e2_,
        stop == stop_,
{
    let ga = choose|ga: GameState|
        #[trigger] act_post(g, ga, i, t, e, e2) && same_board(g, ga) && ga.room_idx == g.room_idx && ga.core == g.core
            && with_ents(
            ga,
            g2,
            ga.entities@.update(
                i,
                Entity {
                    time: (ga.entities@[i].time + crate::config::time_step_spec(crate::state::eff_speed_spec(ga.entities@[i]))) as i64,
                    ..ga.entities@[i]
                },
            ),
        ) && h2 == (h || strikes_mage(g, i)) && stop == if g2.mage_spec().hp <= 0 {
            Some(Status::Defeat)
        } else {
            None
        };
    let gb = choose|ga: GameState|
        #[trigger] act_post(g_, ga, i, t, e, e2_) && same_board(g_, ga) && ga.room_idx == g_.room_idx && ga.core == g_.core
            && with_ents(
            ga,
            g2_,
            ga.entities@.update(
                i,
                Entity {
                    time: (ga.entities@[i].time + crate::config::time_step_spec(crate::state::eff_speed_spec(ga.entities@[i]))) as i64,
                    ..ga.entities@[i]
                },
            ),
        ) && h2_ == (h || strikes_mage(g_, i)) && stop_ == if g2_.mage_spec().hp <= 0 {
            Some(Status::Defeat)
        } else {
            None
        };
    lemma_act_result_same(g, g_, i, t);
    lemma_board_ok(g, ga);
    let ee = g.entities@[i];
    assert(same_ent(ee, g_.entities@[i]));
    if ee.stun == 0 && ee.kind == Kind::Boss && !ee.pending_slam {
        lemma_announces_same(g, g_, ga, gb, i);
    }
    assert(same_state(ga, gb));
    let (s, u) = (ga.entities@, gb.entities@);
    assert(same_ent(s[i], u[i]));
    let s1 = s.update(i, Entity { time: (s[i].time + crate::config::time_step_spec(crate::state::eff_speed_spec(s[i]))) as i64, ..s[i] });
    let u1 = u.update(i, Entity { time: (u[i].time + crate::config::time_step_spec(crate::state::eff_speed_spec(u[i]))) as i64, ..u[i] });
    assert forall|j: int| 0 <= j < s1.len() implies same_ent(#[trigger] s1[j], u1[j]) by {
        assert(same_ent(s[j], u[j]));
    }
    lemma_with_ents_same(ga, gb, g2, g2_, s1, u1);
    lemma_mage_spec_same(g2, g2_);
}

pub proof fn lemma_adj_same(s: Seq<Entity>, t: Seq<Entity>, x: int, y: int)
    requires
        same_ents(s, t),
    ensures
        adj_enemy(s, x, y) == adj_enemy(t, x, y),
{
    if adj_enemy(s, x, y) {
        let i = choose|i: int|
            0 <= i < s.len() && crate::state::is_alive_enemy(#[trigger] s[i]) && cheb_spec(s[i].x as int, s[i].y as int, x, y) == 1;
        assert(same_ent(s[i], t[i]));
    }
    if adj_enemy(t, x, y) {
        let i = choose|i: int|
            0 <= i < t.len() && crate::state::is_alive_enemy(#[trigger] t[i]) && cheb_spec(t[i].x as int, t[i].y as int, x, y) == 1;
        assert(same_ent(s[i], t[i]));
    }
}

/// The mage's step onto an on-board cell of battles with the same content.
pub proof fn lemma_mage_move_same(a: GameState, b: GameState, x: int, y: int, t: TierTable)
    requires
        same_state(a, b),
        a.grids_ok(),
        a.entities@.len() > 0,
        a.inb(x, y) || same_board(a, b),
    ensures
        same_ents(mage_move_ents(a, x, y, t), mage_move_ents(b, x, y, t)),
        mage_move_ents(a, x, y, t).len() == a.entities@.len(),
        mage_move_events(a, x, y, t) == mage_move_events(b, x, y, t),
{
    let (s, u) = (a.entities@, b.entities@);
    lemma_mage_same(s, u);
    lemma_mi_range(s);
    lemma_at(a, b, x, y);
    assert(a.tile(x, y) == b.tile(x, y) && a.fire_at(x, y) == b.fire_at(x, y));
    let mi = mage_index_s(s);
    lemma_moved_same(s, u, mi, x, y);
    let (s1, u1) = (moved_to(s, mi, x, y), moved_to(u, mi, x, y));
    lemma_damage_same(s1, u1, mi, crate::config::SPIKE_DMG, t);
    crate::damage::lemma_damage_others(s1, mi, crate::config::SPIKE_DMG, t);
    let s2 = if a.tile(x, y) == crate::state::Tile::Spike { damage_ents(s1, mi, crate::config::SPIKE_DMG, t) } else { s1 };
    let u2 = if a.tile(x, y) == crate::state::Tile::Spike { damage_ents(u1, mi, crate::config::SPIKE_DMG, t) } else { u1 };
    lemma_damage_same(s2, u2, mi, crate::config::FIRE_DOT, t);
    crate::damage::lemma_damage_others(s2, mi, crate::config::FIRE_DOT, t);
    let s3 = if a.fire_at(x, y) > 0 { damage_ents(s2, mi, crate::config::FIRE_DOT, t) } else { s2 };
    let u3 = if a.fire_at(x, y) > 0 { damage_ents(u2, mi, crate::config::FIRE_DOT, t) } else { u2 };
    assert(same_ent(s3[mi], u3[mi]));
    let s4 = s3.update(mi, Entity { haste_turns: crate::config::HASTE_GRANT, ..s3[mi] });
    let u4 = u3.update(mi, Entity { haste_turns: crate::config::HASTE_GRANT, ..u3[mi] });
    assert forall|j: int| 0 <= j < s4.len() implies same_ent(#[trigger] s4[j], u4[j]) by {
        assert(same_ent(s3[j], u3[j]));
    }
}

/// The mage's step from battles with the same content.
pub proof fn lemma_stepped_same(a: GameState, a2: GameState, b: GameState, b2: GameState, x: int, y: int, t: TierTable)
    requires
        same_state(a, a2),
        a.grids_ok(),
        a.entities@.len() > 0,
        a.inb(x, y) || same_board(a, a2),
        stepped(a, b, x, y, t),
        stepped(a2, b2, x, y, t),
    ensures
        same_state(b, b2),
        b.grids_ok(),
        b.entities@.len() == a.entities@.len(),
{
    lemma_mage_move_same(a, a2, x, y, t);
    lemma_at(a, a2, x, y);
    assert(a.tile(x, y) == a2.tile(x, y));
    assert(same_rows(b.tiles@, b2.tiles@)) by {
        if a.tile(x, y) == crate::state::Tile::Rune {
            assert forall|r: int| 0 <= r < b.tiles@.len() implies (#[trigger] b.tiles@[r])@ == b2.tiles@[r]@ by {
                if r != y {
                    assert(b.tiles@[r] == a.tiles@[r]);
                    assert(b2.tiles@[r] == a2.tiles@[r]);
                }
            }
        }
    }
}

/// Taking the first cell off the mage's walk, in battles with the same content.
pub proof fn lemma_walk_popped_same(a: GameState, a2: GameState, b: GameState, b2: GameState, p: Seq<(i32, i32)>)
    requires
        same_state(a, a2),
        a.grids_ok(),
        a.entities@.len() > 0,
        walk_popped(a, b, p),
        walk_popped(a2, b2, p),
    ensures
        same_state(b, b2),
        b.grids_ok(),
        b.entities@.len() == a.entities@.len(),
{
    lemma_mage_spec_same(a, a2);
    lemma_mi_range(a.entities@);
    lemma_board_ok(a, b);
    assert forall|j: int| 0 <= j < b.entities@.len() implies same_ent(#[trigger] b.entities@[j], b2.entities@[j]) by {
        assert(same_ent(a.entities@[j], a2.entities@[j]));
    }
}

/// The mage's walk on its turn, from battles with the same content.
pub proof fn lemma_walk_turn_same(
    g: GameState,
    g_: GameState,
    h: bool,
    e: Seq<Event>,
    t: TierTable,
    g2: GameState,
    h2: bool,
    e2: Seq<Event>,
    stop: Option<Status>,
    g2_: GameState,
    h2_: bool,
    e2_: Seq<Event>,
    stop_: Option<Status>,
)
    requires
        same_state(g, g_),
        g.grids_ok(),
        g.entities@.len() > 0,
        walk_turn(g, h, e, t, g2, h2, e2, stop),
        walk_turn(g_, h, e, t, g2_, h2_, e2_, stop_),
    ensures
        same_state(g2, g2_),
        g2.grids_ok(),
        g2.entities@.len() == g.entities@.len(),
        h2 == h2_,
        e2 == e2_,
        stop == stop_,
{
    lemma_mage_spec_same(g, g_);
    lemma_mi_range(g.entities@);
    let mi = g.mage_index();
    let m = g.mage_spec();
    let s = g.entities@;
    let u = g_.entities@;
    match m.path {
        Some(p) => {
            let q = g_.mage_spec().path.unwrap();
            assert(p@ == q@);
            if p@.len() == 0 {
            } else {
                let n = p@[0];
                let (nx, ny) = (n.0 as int, n.1 as int);
                lemma_adj_same(s, u, m.x as int, m.y as int);
                lemma_adj_same(s, u, nx, ny);
                lemma_at(g, g_, nx, ny);
                if h || adj_enemy(s, m.x as int, m.y as int) || adj_enemy(s, nx, ny) || !walkable_spec(g, nx, ny) || g.ent_at(
                    nx,
                    ny,
                ) is Some {
                    let s1 = s.update(mi, Entity { path: None, ..m });
                    let u1 = u.update(mi, Entity { path: None, ..g_.mage_spec() });
                    assert forall|j: int| 0 <= j < s1.len() implies same_ent(#[trigger] s1[j], u1[j]) by {
                        assert(same_ent(s[j], u[j]));
                    }
                    lemma_with_ents_same(g, g_, g2, g2_, s1, u1);
                } else {
                    let (gc, gd) = choose|gc: GameState, gd: GameState|
                        #[trigger] walk_popped(g, gc, p@) && #[trigger] stepped(gc, gd, nx, ny, t) && turn_ended(gd, g2)
                            && h2 == (h || step_hurts(gc, nx, ny)) && e2 == e + mage_move_events(gc, nx, ny, t) && stop
                            == terminal_spec(g2);
                    let (gc_, gd_) = choose|gc: GameState, gd: GameState|
                        #[trigger] walk_popped(g_, gc, q@) && #[trigger] stepped(gc, gd, nx, ny, t) && turn_ended(gd, g2_)
                            && h2_ == (h || step_hurts(gc, nx, ny)) && e2_ == e + mage_move_events(gc, nx, ny, t) && stop_
                            == terminal_spec(g2_);
                    lemma_walk_popped_same(g, g_, gc, gc_, p@);
                    lemma_at(gc, gc_, nx, ny);
                    lemma_stepped_same(gc, gc_, gd, gd_, nx, ny, t);
                    lemma_mage_move_same(gc, gc_, nx, ny, t);
                    lemma_turn_ended_same(gd, gd_, g2, g2_);
                    lemma_terminal_same(g2, g2_);
                }
            }
        },
        None => {},
    }
}

/// The mage's turn in the chain, from battles with the same content.
pub proof fn lemma_mage_turn_same(
    g: GameState,
    g_: GameState,
    h: bool,
    e: Seq<Event>,
    t: TierTable,
    g2: GameState,
    h2: bool,
    e2: Seq<Event>,
    stop: Option<Status>,
    g2_: GameState,
    h2_: bool,
    e2_: Seq<Event>,
    stop_: Option<Status>,
)
    requires
        same_state(g, g_),
        g.grids_ok(),
        g.entities@.len() > 0,
        mage_turn(g, h, e, t, g2, h2, e2, stop),
        mage_turn(g_, h, e, t, g2_, h2_, e2_, stop_),
    ensures
        same_state(g2, g2_),
        g2.grids_ok(),
        g2.entities@.len() == g.entities@.len(),
        h2 == h2_,
        e2 == e2_,
        stop == stop_,
{
    lemma_terminal_same(g, g_);
    lemma_mage_spec_same(g, g_);
    lemma_mi_range(g.entities@);
    let mi = g.mage_index();
    let m = g.mage_spec();
    let m_ = g_.mage_spec();
    let s = g.entities@;
    let u = g_.entities@;
    match terminal_spec(g) {
        Some(st) => {},
        None => match m.channel {
            Some(ch) => {
                let ch_ = m_.channel.unwrap();
                let s1 = if ch.interrupted {
                    s.update(mi, Entity { channel: None, ..m })
                } else {
                    s.update(mi, Entity { channel: Some(Channel { ready: true, ..ch }), ..m })
                };
                let u1 = if ch.interrupted {
                    u.update(mi, Entity { channel: None, ..m_ })
                } else {
                    u.update(mi, Entity { channel: Some(Channel { ready: true, ..ch_ }), ..m_ })
                };
                assert forall|j: int| 0 <= j < s1.len() implies same_ent(#[trigger] s1[j], u1[j]) by {
                    assert(same_ent(s[j], u[j]));
                }
                if ch.interrupted {
                    let gb = choose|gb: GameState| #[trigger] with_ents(g, gb, s1) && walk_turn(gb, h, e, t, g2, h2, e2, stop);
                    let gb_ = choose|gb: GameState| #[trigger] with_ents(g_, gb, u1) && walk_turn(gb, h, e, t, g2_, h2_, e2_, stop_);
                    lemma_with_ents_same(g, g_, gb, gb_, s1, u1);
                    lemma_walk_turn_same(gb, gb_, h, e, t, g2, h2, e2, stop, g2_, h2_, e2_, stop_);
                } else {
                    lemma_with_ents_same(g, g_, g2, g2_, s1, u1);
                }
            },
            None => {
                lemma_walk_turn_same(g, g_, h, e, t, g2, h2, e2, stop, g2_, h2_, e2_, stop_);
            },
        },
    }
}

/// One round of the time chain from battles with the same content.
pub proof fn lemma_chain_round_same(
    g: GameState,
    g_: GameState,
    h: bool,
    e: Seq<Event>,
    t: TierTable,
    g2: GameState,
    h2: bool,
    e2: Seq<Event>,
    stop: Option<Status>,
    g2_: GameState,
    h2_: bool,
    e2_: Seq<Event>,
    stop_: Option<Status>,
)
    requires
        same_state(g, g_),
        g.grids_ok(),
        g.entities@.len() > 0,
        chain_round(g, h, e, t, g2, h2, e2, stop),
        chain_round(g_, h, e, t, g2_, h2_, e2_, stop_),
    ensures
        same_state(g2, g2_),
        g2.grids_ok(),
        g2.entities@.len() == g.entities@.len(),
        h2 == h2_,
        e2 == e2_,
        stop == stop_,
{
    let s = g.entities@;
    let u = g_.entities@;
    let dead_s = forall|j: int| 0 <= j < s.len() ==> !is_alive(#[trigger] s[j]);
    let dead_u = forall|j: int| 0 <= j < u.len() ==> !is_alive(#[trigger] u[j]);
    if dead_s {
        assert forall|j: int| 0 <= j < u.len() implies !is_alive(#[trigger] u[j]) by {
            assert(same_ent(s[j], u[j]));
        }
    } else {
        let j0 = choose|j: int| !(0 <= j < s.len() ==> !is_alive(#[trigger] s[j]));
        assert(same_ent(s[j0], u[j0]));
        assert(!dead_u);
        lemma_next_actor_same(s, u);
        let ai = choose|i: int| is_next_actor(s, i);
        assert(same_ent(s[ai], u[ai]));
        if s[ai].kind == Kind::Mage {
            lemma_lit_list_same(g, g_, g.w * g.h);
            let cells = lit_list(g, g.w * g.h);
            lemma_burn_all_same(s, u, cells, t);
            let b = burn_all(s, cells, t);
            let ga = choose|ga: GameState| #[trigger] ticked(g, ga, t) && mage_turn(ga, h || b.2, e + b.1, t, g2, h2, e2, stop);
            let ga_ = choose|ga: GameState|
                #[trigger] ticked(g_, ga, t) && mage_turn(ga, h || b.2, e + b.1, t, g2_, h2_, e2_, stop_);
            lemma_ticked_same(g, g_, ga, ga_, t);
            lemma_mage_turn_same(ga, ga_, h || b.2, e + b.1, t, g2, h2, e2, stop, g2_, h2_, e2_, stop_);
        } else {
            lemma_enemy_turn_same(g, g_, ai, h, e, t, g2, h2, e2, stop, g2_, h2_, e2_, stop_);
        }
    }
}

/// The time chain from battles with the same content ends the same way.
pub proof fn lemma_chain_rel_same(
    g: GameState,
    g_: GameState,
    h: bool,
    e: Seq<Event>,
    t: TierTable,
    gf: GameState,
    ef: Seq<Event>,
    st: Status,
    gf_: GameState,
    ef_: Seq<Event>,
    st_: Status,
    k: nat,
)
    requires
        same_state(g, g_),
        g.grids_ok(),
        g.entities@.len() > 0,
        chain_rel(g, h, e, t, gf, ef, st, k),
        chain_rel(g_, h, e, t, gf_, ef_, st_, k),
    ensures
        same_state(gf, gf_),
        ef == ef_,
        st == st_,
    decreases k,
{
    if k > 0 {
        let c1 = exists|h2: bool| #[trigger] chain_round(g, h, e, t, gf, h2, ef, Some(st));
        let c2 = exists|h2: bool| #[trigger] chain_round(g_, h, e, t, gf_, h2, ef_, Some(st_));
        if c1 {
            let h2 = choose|h2: bool| #[trigger] chain_round(g, h, e, t, gf, h2, ef, Some(st));
            if c2 {
                let h2_ = choose|h2: bool| #[trigger] chain_round(g_, h, e, t, gf_, h2, ef_, Some(st_));
                lemma_chain_round_same(g, g_, h, e, t, gf, h2, ef, Some(st), gf_, h2_, ef_, Some(st_));
            } else {
                let (g2_, h2_, e2_) = choose|g2: GameState, h2: bool, e2: Seq<Event>|
                    #[trigger] chain_round(g_, h, e, t, g2, h2, e2, None) && chain_rel(g2, h2, e2, t, gf_, ef_, st_, (k - 1) as nat);
                lemma_chain_round_same(g, g_, h, e, t, gf, h2, ef, Some(st), g2_, h2_, e2_, None);
            }
        } else {
            let (g2, h2, e2) = choose|g2: GameState, h2: bool, e2: Seq<Event>|
                #[trigger] chain_round(g, h, e, t, g2, h2, e2, None) && chain_rel(g2, h2, e2, t, gf, ef, st, (k - 1) as nat);
            if c2 {
                let h2_ = choose|h2: bool| #[trigger] chain_round(g_, h, e, t, gf_, h2, ef_, Some(st_));
                lemma_chain_round_same(g, g_, h, e, t, g2, h2, e2, None, gf_, h2_, ef_, Some(st_));
            } else {
                let (g2_, h2_, e2_) = choose|g2: GameState, h2: bool, e2: Seq<Event>|
                    #[trigger] chain_round(g_, h, e, t, g2, h2, e2, None) && chain_rel(g2, h2, e2, t, gf_, ef_, st_, (k - 1) as nat);
                lemma_chain_round_same(g, g_, h, e, t, g2, h2, e2, None, g2_, h2_, e2_, None);
                lemma_chain_rel_same(g2, g2_, h2, e2, t, gf, ef, st, gf_, ef_, st_, (k - 1) as nat);
            }
        }
    }
}

/// The rest of a step, from battles with the same content, ends the same way.
pub proof fn lemma_closing_same(
    g: GameState,
    g_: GameState,
    h: bool,
    e: Seq<Event>,
    t: TierTable,
    gf: GameState,
    ef: Seq<Event>,
    st: Status,
    gf_: GameState,
    ef_: Seq<Event>,
    st_: Status,
)
    requires
        same_state(g, g_),
        g.grids_ok(),
        g.entities@.len() > 0,
        crate::closing(g, h, e, t, gf, ef, st),
        crate::closing(g_, h, e, t, gf_, ef_, st_),
    ensures
        same_state(gf, gf_),
        ef == ef_,
        st == st_,
{
    lemma_terminal_same(g, g_);
    match terminal_spec(g) {
        Some(s) => {},
        None => {
            lemma_chain_rel_same(g, g_, h, e, t, gf, ef, st, gf_, ef_, st_, (crate::CHAIN_GUARD - 1) as nat);
        },
    }
}

/// Every state holds its own content.
pub proof fn lemma_same_refl(g: GameState)
    ensures
        same_state(g, g),
{
}

pub proof fn lemma_enemy_at_same(s: Seq<Entity>, u: Seq<Entity>, x: int, y: int)
    requires
        same_ents(s, u),
    ensures
        enemy_at_s(s, x, y) == enemy_at_s(u, x, y),
        enemy_at_s(s, x, y) matches Some(i) ==> 0 <= i < s.len(),
{
    assert forall|i: int| 0 <= i < s.len() implies (occupies(x, y))(#[trigger] s[i]) == (occupies(x, y))(u[i]) by {
        assert(same_ent(s[i], u[i]));
    }
    lemma_first_index_same(s, u, occupies(x, y));
    crate::state::lemma_first_index(s, occupies(x, y));
    match first_index(s, occupies(x, y)) {
        Some(i) => {
            assert(same_ent(s[i], u[i]));
        },
        None => {},
    }
}

pub proof fn lemma_heavy_hits_same(s: Seq<Entity>, u: Seq<Entity>, cells: Seq<(i32, i32)>, t: TierTable)
    requires
        same_ents(s, u),
    ensures
        same_ents(heavy_hits(s, cells, t).0, heavy_hits(u, cells, t).0),
        heavy_hits(s, cells, t).1 == heavy_hits(u, cells, t).1,
        heavy_hits(s, cells, t).2 == heavy_hits(u, cells, t).2,
        heavy_hits(s, cells, t).0.len() == s.len(),
        forall|k: int| 0 <= k < heavy_hits(s, cells, t).2.len() ==> 0 <= #[trigger] heavy_hits(s, cells, t).2[k] < s.len(),
    decreases cells.len(),
{
    if cells.len() > 0 {
        lemma_heavy_hits_same(s, u, cells.drop_last(), t);
        let p = heavy_hits(s, cells.drop_last(), t);
        let q = heavy_hits(u, cells.drop_last(), t);
        let c = cells.last();
        lemma_enemy_at_same(p.0, q.0, c.0 as int, c.1 as int);
        match enemy_at_s(p.0, c.0 as int, c.1 as int) {
            Some(e) => {
                lemma_damage_same(p.0, q.0, e, crate::config::HEAVY_DMG, t);
                crate::damage::lemma_damage_others(p.0, e, crate::config::HEAVY_DMG, t);
                let s2 = damage_ents(p.0, e, crate::config::HEAVY_DMG, t);
                let u2 = damage_ents(q.0, e, crate::config::HEAVY_DMG, t);
                assert(same_ent(s2[e], u2[e]));
            },
            None => {},
        }
    }
}

/// One shove of the same entity, on boards and lists with the same content.
pub proof fn lemma_shove_same(g: GameState, g_: GameState, s: Seq<Entity>, u: Seq<Entity>, i: int, dx: int, dy: int, t: TierTable)
    requires
        same_grid(g, g_),
        g.grids_ok(),
        same_ents(s, u),
        0 <= i < s.len(),
    ensures
        same_ents(shove_ents_s(g, s, i, dx, dy, t), shove_ents_s(g_, u, i, dx, dy, t)),
        shove_events_s(g, s, i, dx, dy, t) == shove_events_s(g_, u, i, dx, dy, t),
        shove_ents_s(g, s, i, dx, dy, t).len() == s.len(),
{
    assert(same_ent(s[i], u[i]));
    let (nx, ny) = (s[i].x + dx, s[i].y + dy);
    lemma_at_grid(g, g_, nx, ny);
    assert forall|k: int| 0 <= k < s.len() implies (occupies(nx, ny))(#[trigger] s[k]) == (occupies(nx, ny))(u[k]) by {
        assert(same_ent(s[k], u[k]));
    }
    lemma_first_index_same(s, u, occupies(nx, ny));
    lemma_moved_same(s, u, i, nx, ny);
    let (s1, u1) = (moved_to(s, i, nx, ny), moved_to(u, i, nx, ny));
    match hazard_dmg(g, nx, ny) {
        Some(a) => {
            lemma_damage_same(s1, u1, i, a, t);
            crate::damage::lemma_damage_others(s1, i, a, t);
        },
        None => {},
    }
}

pub proof fn lemma_heavy_shoves_same(
    g: GameState,
    g_: GameState,
    s: Seq<Entity>,
    u: Seq<Entity>,
    hits: Seq<int>,
    cx: int,
    cy: int,
    t: TierTable,
)
    requires
        same_grid(g, g_),
        g.grids_ok(),
        same_ents(s, u),
        forall|k: int| 0 <= k < hits.len() ==> 0 <= #[trigger] hits[k] < s.len(),
    ensures
        same_ents(heavy_shoves(g, s, hits, cx, cy, t).0, heavy_shoves(g_, u, hits, cx, cy, t).0),
        heavy_shoves(g, s, hits, cx, cy, t).1 == heavy_shoves(g_, u, hits, cx, cy, t).1,
        heavy_shoves(g, s, hits, cx, cy, t).0.len() == s.len(),
    decreases hits.len(),
{
    if hits.len() > 0 {
        let h0 = hits.drop_last();
        assert forall|k: int| 0 <= k < h0.len() implies 0 <= #[trigger] h0[k] < s.len() by {
            assert(h0[k] == hits[k]);
        }
        lemma_heavy_shoves_same(g, g_, s, u, h0, cx, cy, t);
        let p = heavy_shoves(g, s, h0, cx, cy, t);
        let q = heavy_shoves(g_, u, h0, cx, cy, t);
        let e = hits.last();
        assert(0 <= e < s.len());
        assert(same_ent(p.0[e], q.0[e]));
        let dx = crate::grid::sign_spec(p.0[e].x - cx);
        let dy = crate::grid::sign_spec(p.0[e].y - cy);
        lemma_shove_same(g, g_, p.0, q.0, e, dx, dy, t);
    }
}

/// The charged blast from battles with the same content, landing on boards with the
/// same content.
pub proof fn lemma_heavy_result_same(a: GameState, a_: GameState, b: GameState, b_: GameState, cx: int, cy: int, t: TierTable)
    requires
        same_state(a, a_),
        same_grid(b, b_),
        b.grids_ok(),
    ensures
        same_ents(heavy_result(a, b, cx, cy, t).0, heavy_result(a_, b_, cx, cy, t).0),
        heavy_result(a, b, cx, cy, t).1 == heavy_result(a_, b_, cx, cy, t).1,
        heavy_result(a, b, cx, cy, t).0.len() == a.entities@.len(),
{
    lemma_cells_in_bounds_same(a, a_, cx, cy, crate::grid::heavy_offsets());
    let cells = cells_in_bounds(a, cx, cy, crate::grid::heavy_offsets());
    lemma_heavy_hits_same(a.entities@, a_.entities@, cells, t);
    let h = heavy_hits(a.entities@, cells, t);
    let h_ = heavy_hits(a_.entities@, cells, t);
    lemma_heavy_shoves_same(b, b_, h.0, h_.0, h.2, cx, cy, t);
}

/// The charged blast from battles with the same content.
pub proof fn lemma_blasted_same(
    a: GameState,
    a_: GameState,
    b: GameState,
    b_: GameState,
    cx: int,
    cy: int,
    t: TierTable,
    e: Seq<Event>,
    e_: Seq<Event>,
)
    requires
        same_state(a, a_),
        a.grids_ok(),
        blasted(a, b, cx, cy, t, e),
        blasted(a_, b_, cx, cy, t, e_),
    ensures
        same_state(b, b_),
        b.grids_ok(),
        b.entities@.len() == a.entities@.len(),
        e == e_,
{
    assert forall|x: int, y: int| b.inb(x, y) implies #[trigger] cell_of(b, x, y) == cell_of(b_, x, y) by {
        lemma_cell_same(a, a_, x, y);
    }
    lemma_rows_from_cells(b, b_);
    lemma_heavy_result_same(a, a_, b, b_, cx, cy, t);
}


/// Battles with the same content read alike wherever a search looks.
pub proof fn lemma_reads_alike(a: GameState, b: GameState)
    requires
        same_state(a, b),
        a.grids_ok(),
    ensures
        reads_alike(a, b),
{
    assert forall|x: int, y: int| #[trigger] a.inb(x, y) implies a.tile(x, y) == b.tile(x, y) && a.fire_at(x, y) == b.fire_at(
        x,
        y,
    ) by {
        lemma_at(a, b, x, y);
    }
    assert forall|x: int, y: int| #[trigger] a.ent_at(x, y) == b.ent_at(x, y) by {
        lemma_at(a, b, x, y);
    }
}

/// The first `m` ray cells either are all empty or hold a first unit.
proof fn lemma_ray_scan(g: GameState, x0: int, y0: int, x1: int, y1: int, m: int)
    requires
        0 <= m,
    ensures
        (forall|i: int| 1 <= i <= m ==> g.ent_at(
            #[trigger] ray_x(x0, x1, i, cheb_spec(x0, y0, x1, y1)),
            ray_x(y0, y1, i, cheb_spec(x0, y0, x1, y1)),
        ) is None) || exists|i: int|
            1 <= i <= m && g.ent_at(
                #[trigger] ray_x(x0, x1, i, cheb_spec(x0, y0, x1, y1)),
                ray_x(y0, y1, i, cheb_spec(x0, y0, x1, y1)),
            ) is Some && forall|j: int|
                1 <= j < i ==> g.ent_at(
                    #[trigger] ray_x(x0, x1, j, cheb_spec(x0, y0, x1, y1)),
                    ray_x(y0, y1, j, cheb_spec(x0, y0, x1, y1)),
                ) is None,
    decreases m,
{
    let n = cheb_spec(x0, y0, x1, y1);
    if m > 0 {
        lemma_ray_scan(g, x0, y0, x1, y1, m - 1);
        if forall|i: int| 1 <= i <= m - 1 ==> g.ent_at(#[trigger] ray_x(x0, x1, i, n), ray_x(y0, y1, i, n)) is None {
            if g.ent_at(ray_x(x0, x1, m, n), ray_x(y0, y1, m, n)) is Some {
                assert(exists|i: int|
                    1 <= i <= m && g.ent_at(#[trigger] ray_x(x0, x1, i, n), ray_x(y0, y1, i, n)) is Some && forall|j: int|
                        1 <= j < i ==> g.ent_at(#[trigger] ray_x(x0, x1, j, n), ray_x(y0, y1, j, n)) is None);
            } else {
                assert forall|i: int| 1 <= i <= m implies g.ent_at(#[trigger] ray_x(x0, x1, i, n), ray_x(y0, y1, i, n)) is None by {
                    if i < m {
                    }
                }
            }
        }
    }
}

/// The same battles see the same first unit on a ray.
pub proof fn lemma_ray_hit_same(a: GameState, b: GameState, x0: int, y0: int, x1: int, y1: int)
    requires
        same_state(a, b),
        a.grids_ok(),
    ensures
        ray_hit(a, x0, y0, x1, y1) == ray_hit(b, x0, y0, x1, y1),
{
    let n = cheb_spec(x0, y0, x1, y1);
    lemma_reads_alike(a, b);
    lemma_ray_scan(a, x0, y0, x1, y1, n);
    if forall|i: int| 1 <= i <= n ==> a.ent_at(#[trigger] ray_x(x0, x1, i, n), ray_x(y0, y1, i, n)) is None {
        assert(first_on_ray(a, x0, y0, x1, y1, None));
        assert forall|i: int| 1 <= i <= n implies b.ent_at(#[trigger] ray_x(x0, x1, i, n), ray_x(y0, y1, i, n)) is None by {
            assert(a.ent_at(ray_x(x0, x1, i, n), ray_x(y0, y1, i, n)) == b.ent_at(ray_x(x0, x1, i, n), ray_x(y0, y1, i, n)));
        }
        assert(first_on_ray(b, x0, y0, x1, y1, None));
        crate::grid::lemma_ray_hit(a, x0, y0, x1, y1, None);
        crate::grid::lemma_ray_hit(b, x0, y0, x1, y1, None);
    } else {
        let i = choose|i: int|
            1 <= i <= n && a.ent_at(#[trigger] ray_x(x0, x1, i, n), ray_x(y0, y1, i, n)) is Some && forall|j: int|
                1 <= j < i ==> a.ent_at(#[trigger] ray_x(x0, x1, j, n), ray_x(y0, y1, j, n)) is None;
        let k = a.ent_at(ray_x(x0, x1, i, n), ray_x(y0, y1, i, n)).unwrap();
        assert(first_on_ray(a, x0, y0, x1, y1, Some(k)));
        assert(b.ent_at(ray_x(x0, x1, i, n), ray_x(y0, y1, i, n)) == Some(k));
        assert forall|j: int| 1 <= j < i implies b.ent_at(#[trigger] ray_x(x0, x1, j, n), ray_x(y0, y1, j, n)) is None by {
            assert(a.ent_at(ray_x(x0, x1, j, n), ray_x(y0, y1, j, n)) is None);
            assert(a.ent_at(ray_x(x0, x1, j, n), ray_x(y0, y1, j, n)) == b.ent_at(ray_x(x0, x1, j, n), ray_x(y0, y1, j, n)));
        }
        assert(first_on_ray(b, x0, y0, x1, y1, Some(k)));
        crate::grid::lemma_ray_hit(a, x0, y0, x1, y1, Some(k));
        crate::grid::lemma_ray_hit(b, x0, y0, x1, y1, Some(k));
    }
}

/// Pushing the same enemy in battles with the same content.
pub proof fn lemma_push_same(a: GameState, b: GameState, idx: int, t: TierTable)
    requires
        same_state(a, b),
        a.grids_ok(),
        0 <= idx < a.entities@.len(),
    ensures
        same_ents(push_ents(a, idx, t), push_ents(b, idx, t)),
        push_events(a, idx, t) == push_events(b, idx, t),
{
    let (s, u) = (a.entities@, b.entities@);
    lemma_mage_same(s, u);
    lemma_mi_range(s);
    assert(same_ent(s[idx], u[idx]));
    assert(same_ent(s[mage_index_s(s)], u[mage_index_s(s)]));
    let (nx, ny) = push_target(s, idx);
    lemma_at(a, b, nx, ny);
    assert forall|k: int| 0 <= k < s.len() implies (occupies(nx, ny))(#[trigger] s[k]) == (occupies(nx, ny))(u[k]) by {
        assert(same_ent(s[k], u[k]));
    }
    lemma_first_index_same(s, u, occupies(nx, ny));
    lemma_damage_same(s, u, idx, crate::config::PUSH_CRASH, t);
    crate::damage::lemma_damage_others(s, idx, crate::config::PUSH_CRASH, t);
    let d = damage_ents(s, idx, crate::config::PUSH_CRASH, t);
    let du = damage_ents(u, idx, crate::config::PUSH_CRASH, t);
    assert(same_ent(d[idx], du[idx]));
    let on = t.tier_of(Spell::Push) >= 2;
    assert forall|j: int| 0 <= j < stun_after(d, idx, on).len() implies same_ent(#[trigger] stun_after(d, idx, on)[j], stun_after(du, idx, on)[j]) by {
        assert(same_ent(d[j], du[j]));
    }
    lemma_moved_same(s, u, idx, nx, ny);
    let (s1, u1) = (moved_to(s, idx, nx, ny), moved_to(u, idx, nx, ny));
    match hazard_dmg(a, nx, ny) {
        Some(h) => {
            lemma_damage_same(s1, u1, idx, h, t);
        },
        None => {},
    }
}

pub proof fn lemma_pull_loop_same(a: GameState, b: GameState, s: Seq<Entity>, u: Seq<Entity>, idx: int, k: nat, t: TierTable)
    requires
        same_grid(a, b),
        a.grids_ok(),
        same_ents(s, u),
        0 <= idx < s.len(),
    ensures
        same_ents(pull_loop(a, s, idx, k, t).0, pull_loop(b, u, idx, k, t).0),
        pull_loop(a, s, idx, k, t).1 == pull_loop(b, u, idx, k, t).1,
        pull_loop(a, s, idx, k, t).0.len() == s.len(),
    decreases k,
{
    if k > 0 {
        lemma_mage_same(s, u);
        lemma_mi_range(s);
        let m = s[mage_index_s(s)];
        assert(same_ent(m, u[mage_index_s(s)]));
        assert(same_ent(s[idx], u[idx]));
        let e = s[idx];
        let nx = e.x + crate::grid::sign_spec(m.x - e.x);
        let ny = e.y + crate::grid::sign_spec(m.y - e.y);
        lemma_at_grid(a, b, nx, ny);
        assert forall|j: int| 0 <= j < s.len() implies (occupies(nx, ny))(#[trigger] s[j]) == (occupies(nx, ny))(u[j]) by {
            assert(same_ent(s[j], u[j]));
        }
        lemma_first_index_same(s, u, occupies(nx, ny));
        lemma_moved_same(s, u, idx, nx, ny);
        let (s1, u1) = (moved_to(s, idx, nx, ny), moved_to(u, idx, nx, ny));
        match hazard_dmg(a, nx, ny) {
            Some(h) => {
                lemma_damage_same(s1, u1, idx, h, t);
                crate::damage::lemma_damage_others(s1, idx, h, t);
            },
            None => {
                lemma_pull_loop_same(a, b, s1, u1, idx, (k - 1) as nat, t);
            },
        }
    }
}

pub proof fn lemma_pull_same(a: GameState, b: GameState, idx: int, t: TierTable)
    requires
        same_state(a, b),
        a.grids_ok(),
        0 <= idx < a.entities@.len(),
    ensures
        same_ents(pull_ents(a, idx, t), pull_ents(b, idx, t)),
        pull_events(a, idx, t) == pull_events(b, idx, t),
{
    let (s, u) = (a.entities@, b.entities@);
    assert(same_ent(s[idx], u[idx]));
    lemma_pull_loop_same(a, b, s, u, idx, 2, t);
    let r = pull_loop(a, s, idx, 2, t);
    let q = pull_loop(b, u, idx, 2, t);
    let on = t.tier_of(Spell::Hook) >= 2;
    assert(same_ent(r.0[idx], q.0[idx]));
    assert forall|j: int| 0 <= j < stun_after(r.0, idx, on).len() implies same_ent(#[trigger] stun_after(r.0, idx, on)[j], stun_after(q.0, idx, on)[j]) by {
        assert(same_ent(r.0[j], q.0[j]));
    }
}

/// Oil reach reads the board only.
pub proof fn lemma_reach_same(a: GameState, b: GameState, sx: int, sy: int)
    requires
        same_grid(a, b),
        a.grids_ok(),
    ensures
        reach_set(a, sx, sy) == reach_set(b, sx, sy),
        forall|x: int, y: int| #[trigger] oil_reach(a, sx, sy, x, y) == oil_reach(b, sx, sy, x, y),
{
    assert forall|p: Seq<(int, int)>| #[trigger] oil_path(a, p) == oil_path(b, p) by {
        assert forall|i: int| 0 <= i < p.len() implies (a.inb((#[trigger] p[i]).0, p[i].1) && a.tile(p[i].0, p[i].1) == crate::state::Tile::Oil)
            == (b.inb(p[i].0, p[i].1) && b.tile(p[i].0, p[i].1) == crate::state::Tile::Oil) by {
            lemma_at_grid(a, b, p[i].0, p[i].1);
        }
    }
    assert forall|x: int, y: int| #[trigger] oil_reach(a, sx, sy, x, y) == oil_reach(b, sx, sy, x, y) by {
        if oil_reach(a, sx, sy, x, y) {
            let p = choose|p: Seq<(int, int)>| #[trigger] oil_path(a, p) && p[0] == (sx, sy) && p.last() == (x, y);
            assert(oil_path(b, p));
        }
        if oil_reach(b, sx, sy, x, y) {
            let p = choose|p: Seq<(int, int)>| #[trigger] oil_path(b, p) && p[0] == (sx, sy) && p.last() == (x, y);
            assert(oil_path(a, p));
        }
    }
    assert(reach_set(a, sx, sy) =~= reach_set(b, sx, sy));
}

pub proof fn lemma_kills_same(s: Seq<Entity>, u: Seq<Entity>, lit: spec_fn(int, int) -> bool, n: int)
    requires
        same_ents(s, u),
        n <= s.len(),
    ensures
        ignite_kills(s, lit, n) == ignite_kills(u, lit, n),
        forall|i: int| 0 <= i < s.len() ==> #[trigger] ignited(s, lit, i) == ignited(u, lit, i),
    decreases n,
{
    assert forall|i: int| 0 <= i < s.len() implies #[trigger] ignited(s, lit, i) == ignited(u, lit, i) by {
        assert(same_ent(s[i], u[i]));
        let (x, y) = (s[i].x as int, s[i].y as int);
        assert forall|k: int| 0 <= k < s.len() implies (occupies(x, y))(#[trigger] s[k]) == (occupies(x, y))(u[k]) by {
            assert(same_ent(s[k], u[k]));
        }
        lemma_first_index_same(s, u, occupies(x, y));
    }
    if n > 0 {
        lemma_kills_same(s, u, lit, n - 1);
        assert(same_ent(s[n - 1], u[n - 1]));
    }
}

pub proof fn lemma_ignite_same(s: Seq<Entity>, u: Seq<Entity>, lit: spec_fn(int, int) -> bool, t: TierTable)
    requires
        same_ents(s, u),
    ensures
        same_ents(ignite_ents(s, lit, t), ignite_ents(u, lit, t)),
{
    lemma_kills_same(s, u, lit, s.len() as int);
    lemma_mage_same(s, u);
    if s.len() > 0 {
        lemma_mi_range(s);
        assert(same_ent(s[mage_index_s(s)], u[mage_index_s(s)]));
    }
    crate::state::lemma_first_index(s, crate::state::mage_pred());
    lemma_first_index_same(s, u, crate::state::mage_pred());
    assert(ignite_bonus(s, t) == ignite_bonus(u, t));
    let (is, iu) = (ignite_ents(s, lit, t), ignite_ents(u, lit, t));
    assert forall|i: int| 0 <= i < is.len() implies same_ent(#[trigger] is[i], iu[i]) by {
        assert(same_ent(s[i], u[i]));
        assert(ignited(s, lit, i) == ignited(u, lit, i));
    }
}

pub proof fn lemma_flood_after_same(a: GameState, b: GameState, sx: int, sy: int, k: nat)
    requires
        same_grid(a, b),
        a.grids_ok(),
    ensures
        flood_after(a, sx, sy, k) == flood_after(b, sx, sy, k),
    decreases k,
{
    if k > 0 {
        lemma_flood_after_same(a, b, sx, sy, (k - 1) as nat);
        let f = flood_after(a, sx, sy, (k - 1) as nat);
        if f.st.len() > 0 {
            let c = f.st.last();
            lemma_at_grid(a, b, c.0 as int, c.1 as int);
        }
    }
}

pub proof fn lemma_flood_events_same(s: Seq<Entity>, u: Seq<Entity>, cells: Seq<(i32, i32)>, t: TierTable)
    requires
        same_ents(s, u),
    ensures
        flood_events(s, cells, t) == flood_events(u, cells, t),
    decreases cells.len(),
{
    if cells.len() > 0 {
        lemma_flood_events_same(s, u, cells.drop_last(), t);
        let c = cells.last();
        assert forall|k: int| 0 <= k < s.len() implies (occupies(c.0 as int, c.1 as int))(#[trigger] s[k]) == (occupies(
            c.0 as int,
            c.1 as int,
        ))(u[k]) by {
            assert(same_ent(s[k], u[k]));
        }
        lemma_first_index_same(s, u, occupies(c.0 as int, c.1 as int));
        crate::state::lemma_first_index(s, occupies(c.0 as int, c.1 as int));
        match first_index(s, occupies(c.0 as int, c.1 as int)) {
            Some(i) => {
                assert(same_ent(s[i], u[i]));
                lemma_damage_same(s, u, i, crate::config::FIRE_DOT, t);
            },
            None => {},
        }
    }
}

/// Releasing a ready charge from battles with the same content.
pub proof fn lemma_released_same(
    g: GameState,
    g_: GameState,
    t: TierTable,
    h0: bool,
    g1: GameState,
    h1: bool,
    e1: Seq<Event>,
    g1_: GameState,
    h1_: bool,
    e1_: Seq<Event>,
)
    requires
        same_state(g, g_),
        g.grids_ok(),
        g.entities@.len() > 0,
        released(g, t, h0, g1, h1, e1),
        released(g_, t, h0, g1_, h1_, e1_),
    ensures
        same_state(g1, g1_),
        g1.grids_ok(),
        g1.entities@.len() == g.entities@.len(),
        h1 == h1_,
        e1 == e1_,
{
    lemma_mage_spec_same(g, g_);
    lemma_mi_range(g.entities@);
    let mi = g.mage_index();
    let m = g.mage_spec();
    let m_ = g_.mage_spec();
    match m.channel {
        Some(ch) => {
            let ch_ = m_.channel.unwrap();
            let s1 = g.entities@.update(mi, Entity { channel: None, ..m });
            let u1 = g_.entities@.update(mi, Entity { channel: None, ..m_ });
            assert forall|j: int| 0 <= j < s1.len() implies same_ent(#[trigger] s1[j], u1[j]) by {
                assert(same_ent(g.entities@[j], g_.entities@[j]));
            }
            let (ga, gb) = choose|ga: GameState, gb: GameState|
                #[trigger] with_ents(g, ga, s1) && #[trigger] blasted(ga, gb, ch.tx as int, ch.ty as int, t, e1) && turn_ended(gb, g1)
                    && h1 == h0;
            let (ga_, gb_) = choose|ga: GameState, gb: GameState|
                #[trigger] with_ents(g_, ga, u1) && #[trigger] blasted(ga, gb, ch_.tx as int, ch_.ty as int, t, e1_) && turn_ended(gb, g1_)
                    && h1_ == h0;
            lemma_with_ents_same(g, g_, ga, ga_, s1, u1);
            lemma_blasted_same(ga, ga_, gb, gb_, ch.tx as int, ch.ty as int, t, e1, e1_);
            lemma_turn_ended_same(gb, gb_, g1, g1_);
        },
        None => {
            lemma_turn_ended_same(g, g_, g1, g1_);
        },
    }
}

/// Fire rows with the same cells over boards of the same shape.
pub proof fn lemma_fire_rows(a: GameState, a_: GameState, b: GameState, b_: GameState)
    requires
        same_state(a, a_),
        a.grids_ok(),
        b.fire@.len() == a.fire@.len(),
        b_.fire@.len() == a_.fire@.len(),
        forall|y: int| 0 <= y < a.h ==> (#[trigger] b.fire@[y])@.len() == a.fire@[y]@.len(),
        forall|y: int| 0 <= y < a_.h ==> (#[trigger] b_.fire@[y])@.len() == a_.fire@[y]@.len(),
        forall|x: int, y: int| a.inb(x, y) ==> #[trigger] b.fire_at(x, y) == b_.fire_at(x, y),
    ensures
        same_rows(b.fire@, b_.fire@),
{
    assert forall|y: int| 0 <= y < b.fire@.len() implies (#[trigger] b.fire@[y])@ == b_.fire@[y]@ by {
        assert(a.fire@[y]@ == a_.fire@[y]@);
        assert forall|x: int| 0 <= x < b.fire@[y]@.len() implies b.fire@[y]@[x] == b_.fire@[y]@[x] by {
            assert(b.fire_at(x, y) == b_.fire_at(x, y));
        }
        assert(b.fire@[y]@ =~= b_.fire@[y]@);
    }
}

/// A resolved spell from battles with the same content.
pub proof fn lemma_cast_post_same(
    spell: Spell,
    a: GameState,
    a_: GameState,
    b: GameState,
    b_: GameState,
    tg: Target,
    t: TierTable,
    rest: Seq<Event>,
    rest_: Seq<Event>,
)
    requires
        same_state(a, a_),
        a.grids_ok(),
        a.entities@.len() > 0,
        validate_spec(spell, a, tg) is Ok,
        kept_frame(a, b),
        kept_frame(a_, b_),
        cast_post(spell, a, b, tg, t, rest),
        cast_post(spell, a_, b_, tg, t, rest_),
    ensures
        same_state(b, b_),
        rest == rest_,
{
    let (tx, ty) = (tg.x as int, tg.y as int);
    let (s, u) = (a.entities@, a_.entities@);
    lemma_mage_spec_same(a, a_);
    lemma_mi_range(s);
    lemma_enemy_at_same(s, u, tx, ty);
    lemma_at(a, a_, tx, ty);
    match spell {
        Spell::Bolt => {
            let m = a.mage_spec();
            lemma_ray_hit_same(a, a_, m.x as int, m.y as int, tx, ty);
            match ray_hit(a, m.x as int, m.y as int, tx, ty) {
                Some(v) => {
                    if 0 <= v < s.len() {
                        assert(same_ent(s[v], u[v]));
                        lemma_damage_same(s, u, v, crate::config::BOLT_DMG, t);
                    }
                },
                None => {},
            }
        },
        Spell::Push => {
            let e = enemy_at_spec(a, tx, ty).unwrap();
            lemma_push_same(a, a_, e, t);
        },
        Spell::Hook => {
            let e = enemy_at_spec(a, tx, ty).unwrap();
            lemma_pull_same(a, a_, e, t);
        },
        Spell::Fire => {
            let (s1, u1) = match enemy_at_spec(a, tx, ty) {
                Some(e) => {
                    lemma_damage_same(s, u, e, crate::config::FIRE_DMG, t);
                    (damage_ents(s, e, crate::config::FIRE_DMG, t), damage_ents(u, e, crate::config::FIRE_DMG, t))
                },
                None => (s, u),
            };
            if a.tile(tx, ty) == crate::state::Tile::Oil {
                lemma_reach_same(a, a_, tx, ty);
                lemma_ignite_same(s1, u1, reach_set(a, tx, ty), t);
                lemma_flood_after_same(a, a_, tx, ty, (9 * (a.w * a.h) + 1) as nat);
                lemma_flood_events_same(s1, u1, flood_order(a, tx, ty), t);
                assert forall|x: int, y: int| a.inb(x, y) implies #[trigger] b.fire_at(x, y) == b_.fire_at(x, y) by {
                    lemma_at(a, a_, x, y);
                    assert(oil_reach(a, tx, ty, x, y) == oil_reach(a_, tx, ty, x, y));
                }
            } else {
                assert forall|x: int, y: int| a.inb(x, y) implies #[trigger] b.fire_at(x, y) == b_.fire_at(x, y) by {
                    lemma_at(a, a_, x, y);
                }
            }
            lemma_fire_rows(a, a_, b, b_);
        },
        Spell::OilFlask => {
            assert forall|x: int, y: int| b.inb(x, y) implies #[trigger] cell_of(b, x, y) == cell_of(b_, x, y) by {
                lemma_at(a, a_, x, y);
                lemma_cell_same(a, a_, x, y);
            }
            lemma_rows_from_cells(b, b_);
        },
        Spell::Heavy => {
            assert forall|x: int, y: int| b.inb(x, y) implies #[trigger] cell_of(b, x, y) == cell_of(b_, x, y) by {
                lemma_cell_same(a, a_, x, y);
            }
            lemma_rows_from_cells(b, b_);
            lemma_heavy_result_same(a, a_, b, b_, tx, ty, t);
        },
        Spell::Haste => {
            let mi = a.mage_index();
            let s1 = s.update(mi, Entity { haste_turns: crate::config::HASTE_GRANT, ..a.mage_spec() });
            let u1 = u.update(mi, Entity { haste_turns: crate::config::HASTE_GRANT, ..a_.mage_spec() });
            assert forall|j: int| 0 <= j < s1.len() implies same_ent(#[trigger] s1[j], u1[j]) by {
                assert(same_ent(s[j], u[j]));
            }
        },
    }
}

/// A cast from battles with the same content.
pub proof fn lemma_cast_done_same(
    g: GameState,
    g_: GameState,
    ga: GameState,
    ga_: GameState,
    spell: Spell,
    tg: Target,
    t: TierTable,
    e1: Seq<Event>,
    e1_: Seq<Event>,
)
    requires
        same_state(g, g_),
        g.grids_ok(),
        g.entities@.len() > 0,
        validate_spec(spell, g, tg) is Ok,
        cast_done(g, ga, spell, tg, t, e1),
        cast_done(g_, ga_, spell, tg, t, e1_),
    ensures
        same_state(ga, ga_),
        ga.grids_ok(),
        ga.entities@.len() > 0,
        e1 == e1_,
{
    lemma_mage_spec_same(g, g_);
    lemma_mi_range(g.entities@);
    if is_channel_spec(spell) {
        lemma_board_ok(g, ga);
        assert(ga.mage_spec().channel == ga_.mage_spec().channel);
        assert forall|j: int| 0 <= j < ga.entities@.len() implies same_ent(#[trigger] ga.entities@[j], ga_.entities@[j]) by {
            if j == g.mage_index() {
            } else {
                assert(ga.entities@[j] == g.entities@[j]);
                assert(ga_.entities@[j] == g_.entities@[j]);
                assert(same_ent(g.entities@[j], g_.entities@[j]));
            }
        }
        assert(e1 =~= e1_);
    } else {
        lemma_cast_post_same(spell, g, g_, ga, ga_, tg, t, e1.drop_first(), e1_.drop_first());
        assert(e1 =~= seq![e1[0]] + e1.drop_first());
        assert(e1_ =~= seq![e1_[0]] + e1_.drop_first());
        assert(e1 =~= e1_);
    }
    crate::state::lemma_first_index(ga.entities@, crate::state::mage_pred());
}

/// The mage's walk set, from battles with the same content.
pub proof fn lemma_walk_set_same(g: GameState, g_: GameState, ga: GameState, ga_: GameState, p: Seq<(i32, i32)>, auto: bool)
    requires
        same_state(g, g_),
        g.entities@.len() > 0,
        walk_set(g, ga, p, auto),
        walk_set(g_, ga_, p, auto),
    ensures
        same_state(ga, ga_),
        ga.entities@.len() == g.entities@.len(),
{
    lemma_mage_spec_same(g, g_);
    lemma_mi_range(g.entities@);
    assert forall|j: int| 0 <= j < ga.entities@.len() implies same_ent(#[trigger] ga.entities@[j], ga_.entities@[j]) by {
        assert(same_ent(g.entities@[j], g_.entities@[j]));
        if j != g.mage_index() {
            assert(ga.entities@[j] == g.entities@[j]);
            assert(ga_.entities@[j] == g_.entities@[j]);
        }
    }
}

/// The player's accepted action, from battles with the same content.
pub proof fn lemma_acted_same(
    g: GameState,
    g_: GameState,
    a: Action,
    t: TierTable,
    h0: bool,
    g1: GameState,
    h1: bool,
    e1: Seq<Event>,
    g1_: GameState,
    h1_: bool,
    e1_: Seq<Event>,
)
    requires
        same_state(g, g_),
        g.grids_ok(),
        g.entities@.len() > 0,
        a matches Action::Cast { spell, target } ==> validate_spec(spell, g, target) is Ok,
        acted(g, a, t, h0, g1, h1, e1),
        acted(g_, a, t, h0, g1_, h1_, e1_),
    ensures
        same_state(g1, g1_),
        g1.grids_ok(),
        g1.entities@.len() > 0,
        h1 == h1_,
        e1 == e1_,
{
    lemma_mage_spec_same(g, g_);
    lemma_mi_range(g.entities@);
    let mi = g.mage_index();
    let m = g.mage_spec();
    let m_ = g_.mage_spec();
    match a {
        Action::Wait => {
            lemma_turn_ended_same(g, g_, g1, g1_);
        },
        Action::Potion => {
            let healed = if m.hp + crate::config::POTION_HEAL <= m.maxhp {
                crate::config::POTION_HEAL as int
            } else {
                m.maxhp - m.hp
            };
            let s1 = g.entities@.update(mi, advanced(Entity { hp: (m.hp + healed) as i32, ..m }));
            let u1 = g_.entities@.update(mi, advanced(Entity { hp: (m_.hp + healed) as i32, ..m_ }));
            assert forall|j: int| 0 <= j < s1.len() implies same_ent(#[trigger] s1[j], u1[j]) by {
                assert(same_ent(g.entities@[j], g_.entities@[j]));
            }
            lemma_with_ents_same(g, g_, g1, g1_, s1, u1);
        },
        Action::Cast { spell, target } => {
            let ga = choose|ga: GameState| #[trigger] cast_done(g, ga, spell, target, t, e1) && turn_ended(ga, g1) && h1 == h0;
            let ga_ = choose|ga: GameState| #[trigger] cast_done(g_, ga, spell, target, t, e1_) && turn_ended(ga, g1_) && h1_ == h0;
            lemma_cast_done_same(g, g_, ga, ga_, spell, target, t, e1, e1_);
            lemma_turn_ended_same(ga, ga_, g1, g1_);
        },
        Action::MoveTo { x, y } => {
            lemma_reads_alike(g, g_);
            lemma_astar_alike(g, g_, m.x as int, m.y as int, x as int, y as int);
            let p = astar_path(g, m.x as int, m.y as int, x as int, y as int).unwrap();
            let (nx, ny) = (p[0].0 as int, p[0].1 as int);
            lemma_adj_same(g.entities@, g_.entities@, m.x as int, m.y as int);
            lemma_adj_same(g.entities@, g_.entities@, p[0].0 as int, p[0].1 as int);
            assert(auto_walk(g, p) == auto_walk(g_, p));
            let (ga, gb) = choose|ga: GameState, gb: GameState|
                #[trigger] walk_set(g, ga, p, auto_walk(g, p)) && #[trigger] stepped(ga, gb, nx, ny, t) && turn_ended(gb, g1)
                    && h1 == crate::turns::step_hurts(ga, nx, ny) && e1 == mage_move_events(ga, nx, ny, t);
            let (ga_, gb_) = choose|ga: GameState, gb: GameState|
                #[trigger] walk_set(g_, ga, p, auto_walk(g_, p)) && #[trigger] stepped(ga, gb, nx, ny, t) && turn_ended(gb, g1_)
                    && h1_ == crate::turns::step_hurts(ga, nx, ny) && e1_ == mage_move_events(ga, nx, ny, t);
            lemma_walk_set_same(g, g_, ga, ga_, p, auto_walk(g, p));
            lemma_board_ok(g, ga);
            assert(crate::movement::path_valid(g, m.x as int, m.y as int, x as int, y as int, p));
            assert(walkable_spec(g, p[0].0 as int, p[0].1 as int));
            lemma_at(ga, ga_, nx, ny);
            lemma_stepped_same(ga, ga_, gb, gb_, nx, ny, t);
            lemma_mage_move_same(ga, ga_, nx, ny, t);
            lemma_turn_ended_same(gb, gb_, g1, g1_);
        },
        Action::Release => {},
    }
}

/// The opening of a step, from battles with the same content.
pub proof fn lemma_opening_same(
    g: GameState,
    g_: GameState,
    a: Action,
    t: TierTable,
    g1: GameState,
    h1: bool,
    e1: Seq<Event>,
    g1_: GameState,
    h1_: bool,
    e1_: Seq<Event>,
)
    requires
        same_state(g, g_),
        g.grids_ok(),
        g.entities@.len() > 0,
        !crate::charge_ready(g) ==> (a matches Action::Cast { spell, target } ==> validate_spec(spell, g, target) is Ok),
        crate::opening(g, a, t, g1, h1, e1),
        crate::opening(g_, a, t, g1_, h1_, e1_),
    ensures
        same_state(g1, g1_),
        g1.grids_ok(),
        g1.entities@.len() > 0,
        h1 == h1_,
        e1 == e1_,
{
    lemma_mage_spec_same(g, g_);
    lemma_mi_range(g.entities@);
    assert(crate::charge_ready(g) == crate::charge_ready(g_));
    if crate::charge_ready(g) {
        lemma_released_same(g, g_, t, false, g1, h1, e1, g1_, h1_, e1_);
    } else {
        lemma_acted_same(g, g_, a, t, false, g1, h1, e1, g1_, h1_, e1_);
    }
}

/// Refusals of battles with the same content agree.
pub proof fn lemma_reject_same(g: GameState, g_: GameState, run: RunState, run_: RunState, a: Action)
    requires
        same_state(g, g_),
        g.grids_ok(),
        g.entities@.len() > 0,
        run.potions == run_.potions,
    ensures
        crate::action_reject(g, run, a) == crate::action_reject(g_, run_, a),
{
    lemma_mage_spec_same(g, g_);
    lemma_mi_range(g.entities@);
    let m = g.mage_spec();
    let (mx, my) = (m.x as int, m.y as int);
    match a {
        Action::Cast { spell, target } => {
            let (tx, ty) = (target.x as int, target.y as int);
            lemma_enemy_at_same(g.entities@, g_.entities@, tx, ty);
            lemma_at(g, g_, tx, ty);
            lemma_los_same(g, g_, mx, my, tx, ty);
            match enemy_at_spec(g, tx, ty) {
                Some(e) => {
                    assert(same_ent(g.entities@[e], g_.entities@[e]));
                    lemma_los_same(g, g_, mx, my, g.entities@[e].x as int, g.entities@[e].y as int);
                },
                None => {},
            }
        },
        Action::MoveTo { x, y } => {
            lemma_at(g, g_, x as int, y as int);
            lemma_reads_alike(g, g_);
            lemma_path_exists_alike(g, g_, mx, my, x as int, y as int);
        },
        _ => {},
    }
}

/// Two runs hold the same content.
pub open spec fn same_run(a: RunState, b: RunState) -> bool {
    &&& a.run_seed == b.run_seed
    &&& a.acquired@ == b.acquired@
    &&& a.tiers == b.tiers
    &&& a.potions == b.potions
    &&& a.room_idx == b.room_idx
    &&& a.op_log@ == b.op_log@
}

/// `step` is a function of its inputs: from battles and runs with the same content and
/// the same action, any two outcomes of a step hold battles and runs with the same
/// content, and the same events, status and refusal.
pub proof fn law_step_deterministic(
    g0: GameState,
    run0: RunState,
    g0_: GameState,
    run0_: RunState,
    a: Action,
    g1: GameState,
    run1: RunState,
    ev1: Seq<Event>,
    st1: Status,
    rej1: Option<Reject>,
    g2: GameState,
    run2: RunState,
    ev2: Seq<Event>,
    st2: Status,
    rej2: Option<Reject>,
)
    requires
        crate::turn_ok(g0),
        same_state(g0, g0_),
        same_run(run0, run0_),
        crate::step_post(g0, run0, a, g1, run1, ev1, st1, rej1),
        crate::step_post(g0_, run0_, a, g2, run2, ev2, st2, rej2),
    ensures
        same_state(g1, g2),
        same_run(run1, run2),
        ev1 == ev2,
        st1 == st2,
        rej1 == rej2,
{
    crate::state::lemma_first_index(g0.entities@, crate::state::mage_pred());
    lemma_mage_spec_same(g0, g0_);
    lemma_reject_same(g0, g0_, run0, run0_, a);
    assert(crate::charge_ready(g0) == crate::charge_ready(g0_));
    if crate::charge_ready(g0) {
    } else {
        match crate::action_reject(g0, run0, a) {
            Some(e) => {},
            None => {},
        }
    }
    if rej1 is None {
        let t = run0.tiers;
        let (gm, hm, em) = choose|gm: GameState, hm: bool, em: Seq<Event>|
            #[trigger] crate::opening(g0, a, t, gm, hm, em) && crate::closing(gm, hm, em, t, g1, ev1, st1);
        let (gm_, hm_, em_) = choose|gm: GameState, hm: bool, em: Seq<Event>|
            #[trigger] crate::opening(g0_, a, t, gm, hm, em) && crate::closing(gm, hm, em, t, g2, ev2, st2);
        lemma_opening_same(g0, g0_, a, t, gm, hm, em, gm_, hm_, em_);
        lemma_closing_same(gm, gm_, hm, em, t, g1, ev1, st1, g2, ev2, st2);
    } else {
        assert(ev1 =~= ev2);
    }
}

/// A pick from runs with the same content.
pub proof fn lemma_picked_same(a: RunState, a_: RunState, id: Spell, b: RunState, b_: RunState, r: PickResult, r_: PickResult)
    requires
        same_run(a, a_),
        picked(a, id, b, r),
        picked(a_, id, b_, r_),
    ensures
        same_run(b, b_),
        r == r_,
{
    if !a.acquired@.contains(id) && a.acquired@.len() >= crate::config::SPELL_CAP {
    } else {
        crate::damage::lemma_tiers_ext(b.tiers, b_.tiers);
    }
}

/// A drop from runs with the same content.
pub proof fn lemma_dropped_same(a: RunState, a_: RunState, take: Spell, drop: Spell, b: RunState, b_: RunState)
    requires
        same_run(a, a_),
        dropped(a, take, drop, b),
        dropped(a_, take, drop, b_),
    ensures
        same_run(b, b_),
{
    if a.acquired@.contains(drop) {
        crate::damage::lemma_tiers_ext(b.tiers, b_.tiers);
    }
}

/// A room loads into one content.
pub proof fn lemma_loaded_same(rows: Seq<Seq<char>>, i: usize, g: GameState, g_: GameState)
    requires
        loaded(rows, i, false, g),
        loaded(rows, i, false, g_),
    ensures
        same_state(g, g_),
{
    assert forall|y: int| 0 <= y < g.tiles@.len() implies (#[trigger] g.tiles@[y])@ == g_.tiles@[y]@ by {
        assert(g.tiles@[y]@ =~= g_.tiles@[y]@);
    }
    assert forall|x: int, y: int| 0 <= x < g.w && 0 <= y < g.h implies #[trigger] g.fire@[y]@[x] == 0 && g_.fire@[y]@[x]
        == 0 && g.burn_t@[y]@[x] == 0 && g_.burn_t@[y]@[x] == 0 by {
        assert(g.fire@[y]@[x] == 0 && g.burn_t@[y]@[x] == 0);
        assert(g_.fire@[y]@[x] == 0 && g_.burn_t@[y]@[x] == 0);
    }
    assert forall|y: int| 0 <= y < g.fire@.len() implies (#[trigger] g.fire@[y])@ == g_.fire@[y]@ by {
        assert(g.fire@[y]@.len() == g.w && g_.fire@[y]@.len() == g.w);
        assert forall|x: int| 0 <= x < g.fire@[y]@.len() implies g.fire@[y]@[x] == g_.fire@[y]@[x] by {
            assert(0 <= x < g.w && 0 <= y < g.h);
            assert(0 <= x < g_.w && 0 <= y < g_.h);
            assert(g.fire@[y]@[x] == 0 && g.burn_t@[y]@[x] == 0);
            assert(g_.fire@[y]@[x] == 0 && g_.burn_t@[y]@[x] == 0);
        }
        assert(g.fire@[y]@ =~= g_.fire@[y]@);
    }
    assert forall|y: int| 0 <= y < g.burn_t@.len() implies (#[trigger] g.burn_t@[y])@ == g_.burn_t@[y]@ by {
        assert(g.burn_t@[y]@.len() == g.w && g_.burn_t@[y]@.len() == g.w);
        assert forall|x: int| 0 <= x < g.burn_t@[y]@.len() implies g.burn_t@[y]@[x] == g_.burn_t@[y]@[x] by {
            assert(0 <= x < g.w && 0 <= y < g.h);
            assert(0 <= x < g_.w && 0 <= y < g_.h);
            assert(g.fire@[y]@[x] == 0 && g.burn_t@[y]@[x] == 0);
            assert(g_.fire@[y]@[x] == 0 && g_.burn_t@[y]@[x] == 0);
        }
        assert(g.burn_t@[y]@ =~= g_.burn_t@[y]@);
    }
    let cells = crate::roguelite::scan(rows);
    let ms = crate::roguelite::mage_spawns(cells);
    let fs = crate::roguelite::foe_spawns(cells);
    lemma_cells_in_bounds_same(g, g_, ms[0].0, ms[0].1, crate::grid::slam_offsets());
    assert forall|j: int| 0 <= j < g.entities@.len() implies same_ent(#[trigger] g.entities@[j], g_.entities@[j]) by {
        if j < ms.len() {
        } else {
            let k = j - ms.len();
            assert(g.entities@[ms.len() + k] == g.entities@[j]);
            assert(g_.entities@[ms.len() + k] == g_.entities@[j]);
        }
    }
}

/// One operation of a run, from battles and runs with the same content.
pub proof fn lemma_op_same(
    g: GameState,
    run: RunState,
    st: Status,
    op: RunOp,
    g2: GameState,
    run2: RunState,
    st2: Status,
    g_: GameState,
    run_: RunState,
    g2_: GameState,
    run2_: RunState,
    st2_: Status,
)
    requires
        same_state(g, g_),
        same_run(run, run_),
        crate::turn_ok(g),
        op is NextRoom ==> run.room_idx + 1 < crate::config::ROOM_COUNT,
        op_leads(g, run, st, op, g2, run2, st2),
        op_leads(g_, run_, st, op, g2_, run2_, st2_),
    ensures
        same_state(g2, g2_),
        same_run(run2, run2_),
        st2 == st2_,
        crate::turn_ok(g2),
{
    reveal(op_leads);
    match op {
        RunOp::Battle(a) => {
            let (ev, rej) = choose|ev: Seq<Event>, rej: Option<Reject>| #[trigger] crate::step_post(g, run, a, g2, run2, ev, st2, rej);
            let (ev_, rej_) = choose|ev: Seq<Event>, rej: Option<Reject>|
                #[trigger] crate::step_post(g_, run_, a, g2_, run2_, ev, st2_, rej);
            law_step_deterministic(g, run, g_, run_, a, g2, run2, ev, st2, rej, g2_, run2_, ev_, st2_, rej_);
        },
        RunOp::Pick(s) => {
            let res = choose|res: PickResult| #[trigger] picked(run, s, run2, res) && g2 == g && st2 == st;
            let res_ = choose|res: PickResult| #[trigger] picked(run_, s, run2_, res) && g2_ == g_ && st2_ == st;
            lemma_picked_same(run, run_, s, run2, run2_, res, res_);
        },
        RunOp::Drop { take, drop } => {
            lemma_dropped_same(run, run_, take, drop, run2, run2_);
        },
        RunOp::NextRoom => {
            let i = run.room_idx + 1;
            lemma_loaded_same(lines(ROOMS@[i]@), i as usize, g2, g2_);
            crate::roguelite::lemma_room_ready(i, g2);
        },
    }
}

/// Two traces of the same operations from the same seed go through states with the same
/// content, up to step `n`.
pub proof fn lemma_trace_same(
    seed: u32,
    ops: Seq<RunOp>,
    gs: Seq<GameState>,
    rs: Seq<RunState>,
    ss: Seq<Status>,
    gs_: Seq<GameState>,
    rs_: Seq<RunState>,
    ss_: Seq<Status>,
    n: int,
)
    requires
        run_trace(seed, ops, false, gs, rs, ss),
        run_trace(seed, ops, false, gs_, rs_, ss_),
        next_rooms(ops) < crate::config::ROOM_COUNT,
        0 <= n <= ops.len(),
    ensures
        same_state(gs[n], gs_[n]),
        same_run(rs[n], rs_[n]),
        ss[n] == ss_[n],
        crate::turn_ok(gs[n]),
        rs[n].room_idx == next_rooms(ops.take(n)),
    decreases n,
{
    if n == 0 {
        lemma_loaded_same(lines(ROOMS@[0]@), 0usize, gs[0], gs_[0]);
        crate::roguelite::lemma_room_ready(0, gs[0]);
        crate::damage::lemma_tiers_ext(rs[0].tiers, rs_[0].tiers);
        assert(ops.take(0) =~= Seq::<RunOp>::empty());
    } else {
        let k = n - 1;
        lemma_trace_same(seed, ops, gs, rs, ss, gs_, rs_, ss_, k);
        crate::harness::lemma_next_rooms_prefix(ops, k);
        assert(op_leads(gs[k], rs[k], ss[k], ops[k], gs[k + 1], rs[k + 1], ss[k + 1]));
        assert(op_leads(gs_[k], rs_[k], ss_[k], ops[k], gs_[k + 1], rs_[k + 1], ss_[k + 1]));
        lemma_op_same(gs[k], rs[k], ss[k], ops[k], gs[k + 1], rs[k + 1], ss[k + 1], gs_[k], rs_[k], gs_[k + 1], rs_[k + 1], ss_[k + 1]);
        reveal(op_leads);
        match ops[k] {
            RunOp::Pick(s) => {
                let res = choose|res: PickResult| #[trigger] picked(rs[k], s, rs[k + 1], res) && gs[k + 1] == gs[k] && ss[k + 1] == ss[k];
            },
            _ => {},
        }
    }
}

/// The same operations from the same seed lead to the same content, whoever chose them.
pub proof fn law_run_deterministic(
    seed: u32,
    ops: Seq<RunOp>,
    g: GameState,
    run: RunState,
    st: Status,
    g_: GameState,
    run_: RunState,
    st_: Status,
)
    requires
        next_rooms(ops) < crate::config::ROOM_COUNT,
        run_after(seed, ops, false, g, run, st),
        run_after(seed, ops, false, g_, run_, st_),
    ensures
        same_state(g, g_),
        same_run(run, run_),
        st == st_,
{
    let (gs, rs, ss) = choose|gs: Seq<GameState>, rs: Seq<RunState>, ss: Seq<Status>|
        #[trigger] run_trace(seed, ops, false, gs, rs, ss) && gs.last() == g && rs.last() == run && ss.last() == st;
    let (gs_, rs_, ss_) = choose|gs: Seq<GameState>, rs: Seq<RunState>, ss: Seq<Status>|
        #[trigger] run_trace(seed, ops, false, gs, rs, ss) && gs.last() == g_ && rs.last() == run_ && ss.last() == st_;
    lemma_trace_same(seed, ops, gs, rs, ss, gs_, rs_, ss_, ops.len() as int);
}

/// Two snapshots hold the same content.
pub open spec fn same_snapshot(a: Snapshot, b: Snapshot) -> bool {
    &&& a.entities@ == b.entities@
    &&& same_rows(a.tiles@, b.tiles@)
    &&& same_rows(a.fire@, b.fire@)
    &&& same_rows(a.burn_t@, b.burn_t@)
    &&& a.acquired@ == b.acquired@
    &&& a.potions == b.potions
    &&& a.room_idx == b.room_idx
}

/// Snapshots of battles and runs with the same content hold the same content.
pub proof fn lemma_shows_same(sn: Snapshot, g: GameState, run: RunState, sn_: Snapshot, g_: GameState, run_: RunState)
    requires
        same_state(g, g_),
        same_run(run, run_),
        shows(sn, g, run),
        shows(sn_, g_, run_),
    ensures
        same_snapshot(sn, sn_),
{
    assert forall|j: int| 0 <= j < g.entities@.len() implies crate::harness::ent_row(#[trigger] g.entities@[j])
        == crate::harness::ent_row(g_.entities@[j]) by {
        assert(same_ent(g.entities@[j], g_.entities@[j]));
    }
    assert(sn.entities@ =~= sn_.entities@);
    assert forall|y: int| 0 <= y < sn.tiles@.len() implies (#[trigger] sn.tiles@[y])@ == sn_.tiles@[y]@ by {
        assert(g.tiles@[y]@ == g_.tiles@[y]@);
    }
    assert forall|y: int| 0 <= y < sn.fire@.len() implies (#[trigger] sn.fire@[y])@ == sn_.fire@[y]@ by {
        assert(g.fire@[y]@ == g_.fire@[y]@);
    }
    assert forall|y: int| 0 <= y < sn.burn_t@.len() implies (#[trigger] sn.burn_t@[y])@ == sn_.burn_t@[y]@ by {
        assert(g.burn_t@[y]@ == g_.burn_t@[y]@);
    }
}

/// Replaying the operations of the agent's run (see `play`) from the same seed (see
/// `replay`) gives back the run's outcome and a snapshot with the same content.
pub proof fn law_replay_reproduces_play(seed: u32, ops: Seq<RunOp>, st: Status, sn: Snapshot, st2: Status, sn2: Snapshot)
    requires
        next_rooms(ops) < crate::config::ROOM_COUNT,
        exists|g: GameState, run: RunState| #[trigger] run_after(seed, ops, true, g, run, st) && shows(sn, g, run),
        exists|g: GameState, run: RunState| #[trigger] run_after(seed, ops, false, g, run, st2) && shows(sn2, g, run),
    ensures
        st2 == st,
        same_snapshot(sn, sn2),
{
    let (g, run) = choose|g: GameState, run: RunState| #[trigger] run_after(seed, ops, true, g, run, st) && shows(sn, g, run);
    let (g2, run2) = choose|g: GameState, run: RunState| #[trigger] run_after(seed, ops, false, g, run, st2) && shows(sn2, g, run);
    crate::harness::law_agent_run_replays(seed, ops, g, run, st);
    law_run_deterministic(seed, ops, g, run, st, g2, run2, st2);
    lemma_shows_same(sn, g, run, sn2, g2, run2);
}

/// Plays one run with the agent and replays its operations from the same seed: the
/// replay gives back the run's outcome and a snapshot with the same content.
pub fn play_and_replay(seed: u32, budget: usize) -> (r: (Trace, Status, Snapshot))
    requires
        budget + 2 * crate::config::ROOM_COUNT <= crate::harness::step_cap(),
    ensures
        r.1 == r.0.outcome,
        same_snapshot(r.0.final_snapshot, r.2),
{
    let t = play(seed, budget);
    let (st, sn) = replay(seed, t.ops.as_slice());
    proof {
        law_replay_reproduces_play(seed, t.ops@, t.outcome, t.final_snapshot, st, sn);
    }
    (t, st, sn)
}

/// The spells a run can be offered read only its hand.
pub proof fn lemma_offer_filter_same(run: RunState, run_: RunState, p: Seq<Spell>)
    requires
        same_run(run, run_),
    ensures
        crate::roguelite::offer_filter(run, p) == crate::roguelite::offer_filter(run_, p),
    decreases p.len(),
{
    if p.len() > 0 {
        lemma_offer_filter_same(run, run_, p.drop_last());
    }
}

/// The agent's operation from battles and runs with the same content is the same.
pub proof fn lemma_agent_op_same(g: GameState, run: RunState, st: Status, g_: GameState, run_: RunState, op: RunOp, op_: RunOp)
    requires
        crate::turn_ok(g),
        same_state(g, g_),
        same_run(run, run_),
        crate::harness::agent_op(g, run, st, op),
        crate::harness::agent_op(g_, run_, st, op_),
    ensures
        op == op_,
{
    reveal(crate::harness::agent_op);
    crate::harness::law_agent_choice_same(g, run, g_, run_);
    lemma_offer_filter_same(run, run_, crate::spells::pickable_spec());
    assert(crate::roguelite::offers_spec(run) == crate::roguelite::offers_spec(run_));
    assert(crate::harness::picked_here(run) == crate::harness::picked_here(run_));
}

/// `battles` counts along prefixes.
pub proof fn lemma_battles_take(ops: Seq<RunOp>, i: int, j: int)
    requires
        0 <= i <= j <= ops.len(),
    ensures
        crate::harness::battles(ops.take(i)) <= crate::harness::battles(ops.take(j)),
        j < ops.len() ==> crate::harness::battles(ops.take(j + 1)) == crate::harness::battles(ops.take(j)) + if ops[j] is Battle {
            1int
        } else {
            0
        },
        crate::harness::battles(ops.take(ops.len() as int)) == crate::harness::battles(ops),
    decreases j - i,
{
    assert(ops.take(ops.len() as int) =~= ops);
    if j < ops.len() {
        assert(ops.take(j + 1).drop_last() =~= ops.take(j));
    }
    if i < j {
        lemma_battles_take(ops, i, j - 1);
        assert(ops.take(j).drop_last() =~= ops.take(j - 1));
    }
}

/// Two agent traces from the same seed agree operation by operation up to step `n`.
pub proof fn lemma_agent_trace_same(
    seed: u32,
    ops: Seq<RunOp>,
    gs: Seq<GameState>,
    rs: Seq<RunState>,
    ss: Seq<Status>,
    ops2: Seq<RunOp>,
    gs2: Seq<GameState>,
    rs2: Seq<RunState>,
    ss2: Seq<Status>,
    n: int,
)
    requires
        run_trace(seed, ops, true, gs, rs, ss),
        run_trace(seed, ops2, true, gs2, rs2, ss2),
        0 <= n <= ops.len(),
        n <= ops2.len(),
    ensures
        ops.take(n) == ops2.take(n),
        same_state(gs[n], gs2[n]),
        same_run(rs[n], rs2[n]),
        ss[n] == ss2[n],
        crate::turn_ok(gs[n]),
        gs[n].room_idx == rs[n].room_idx,
        ss[n] == Status::PickOffered ==> rs[n].room_idx + 1 < crate::config::ROOM_COUNT,
    decreases n,
{
    if n == 0 {
        lemma_loaded_same(lines(ROOMS@[0]@), 0usize, gs[0], gs2[0]);
        crate::roguelite::lemma_room_ready(0, gs[0]);
        crate::damage::lemma_tiers_ext(rs[0].tiers, rs2[0].tiers);
        assert(ops.take(0) =~= ops2.take(0));
    } else {
        let k = n - 1;
        lemma_agent_trace_same(seed, ops, gs, rs, ss, ops2, gs2, rs2, ss2, k);
        assert(crate::harness::agent_op(gs[k], rs[k], ss[k], ops[k]));
        assert(crate::harness::agent_op(gs2[k], rs2[k], ss2[k], ops2[k]));
        lemma_agent_op_same(gs[k], rs[k], ss[k], gs2[k], rs2[k], ops[k], ops2[k]);
        assert(ops.take(n) =~= ops.take(k).push(ops[k]));
        assert(ops2.take(n) =~= ops2.take(k).push(ops2[k]));
        reveal(crate::harness::agent_op);
        assert(op_leads(gs[k], rs[k], ss[k], ops[k], gs[k + 1], rs[k + 1], ss[k + 1]));
        assert(op_leads(gs2[k], rs2[k], ss2[k], ops2[k], gs2[k + 1], rs2[k + 1], ss2[k + 1]));
        lemma_op_same(gs[k], rs[k], ss[k], ops[k], gs[k + 1], rs[k + 1], ss[k + 1], gs2[k], rs2[k], gs2[k + 1], rs2[k + 1], ss2[k + 1]);
        reveal(op_leads);
        match ops[k] {
            RunOp::Battle(a) => {
                let (ev, rej) = choose|ev: Seq<Event>, rej: Option<Reject>|
                    #[trigger] crate::step_post(gs[k], rs[k], a, gs[k + 1], rs[k + 1], ev, ss[k + 1], rej);
            },
            RunOp::Pick(s) => {
                let res = choose|res: PickResult| #[trigger] picked(rs[k], s, rs[k + 1], res) && gs[k + 1] == gs[k] && ss[k + 1] == ss[k];
            },
            _ => {},
        }
    }
}

/// The agent's run is one run: two agent traces from the same seed that both stopped
/// where the run stops (see `trace::run_stopped`) take the same operations through
/// states with the same content.
pub proof fn law_agent_run_unique(
    seed: u32,
    budget: usize,
    ops: Seq<RunOp>,
    gs: Seq<GameState>,
    rs: Seq<RunState>,
    ss: Seq<Status>,
    ops2: Seq<RunOp>,
    gs2: Seq<GameState>,
    rs2: Seq<RunState>,
    ss2: Seq<Status>,
)
    requires
        run_trace(seed, ops, true, gs, rs, ss),
        run_trace(seed, ops2, true, gs2, rs2, ss2),
        crate::trace::run_stopped(ops, ss.last(), budget),
        crate::trace::run_stopped(ops2, ss2.last(), budget),
    ensures
        ops == ops2,
        forall|k: int| 0 <= k <= ops.len() ==> same_state(#[trigger] gs[k], gs2[k]) && same_run(rs[k], rs2[k]) && ss[k] == ss2[k],
{
    lemma_stop_no_longer(seed, budget, ops, gs, rs, ss, ops2, gs2, rs2, ss2);
    lemma_stop_no_longer(seed, budget, ops2, gs2, rs2, ss2, ops, gs, rs, ss);
    lemma_agent_trace_same(seed, ops, gs, rs, ss, ops2, gs2, rs2, ss2, ops.len() as int);
    assert(ops.take(ops.len() as int) =~= ops);
    assert(ops2.take(ops2.len() as int) =~= ops2);
    assert forall|k: int| 0 <= k <= ops.len() implies same_state(#[trigger] gs[k], gs2[k]) && same_run(rs[k], rs2[k]) && ss[k] == ss2[k] by {
        lemma_agent_trace_same(seed, ops, gs, rs, ss, ops2, gs2, rs2, ss2, k);
    }
}

/// A stopped agent trace is no shorter than another stopped one from the same seed.
proof fn lemma_stop_no_longer(
    seed: u32,
    budget: usize,
    ops: Seq<RunOp>,
    gs: Seq<GameState>,
    rs: Seq<RunState>,
    ss: Seq<Status>,
    ops2: Seq<RunOp>,
    gs2: Seq<GameState>,
    rs2: Seq<RunState>,
    ss2: Seq<Status>,
)
    requires
        run_trace(seed, ops, true, gs, rs, ss),
        run_trace(seed, ops2, true, gs2, rs2, ss2),
        crate::trace::run_stopped(ops, ss.last(), budget),
        crate::trace::run_stopped(ops2, ss2.last(), budget),
    ensures
        ops2.len() <= ops.len(),
{
    if ops.len() < ops2.len() {
        let n = ops.len() as int;
        lemma_agent_trace_same(seed, ops, gs, rs, ss, ops2, gs2, rs2, ss2, n);
        assert(ops.take(n) =~= ops);
        reveal(crate::harness::agent_op);
        assert(crate::harness::agent_op(gs2[n], rs2[n], ss2[n], ops2[n]));
        let cap: int = if budget == 0 {
            1
        } else {
            budget as int
        };
        if ss[n] == Status::RunComplete || ss[n] == Status::Defeat {
        } else {
            assert(crate::harness::battles(ops) == cap && ops.last() is Battle);
            let m = ops2.len() as int;
            lemma_battles_take(ops2, n, n);
            assert forall|j: int| n <= j < m implies !(#[trigger] ops2[j] is Battle) by {
                lemma_battles_take(ops2, n, j);
                lemma_battles_take(ops2, j + 1, m);
            }
            assert(!(ops2[m - 1] is Battle));
            assert(agent_op_at(gs2, rs2, ss2, ops2, m - 1));
            let l = m - 1;
            assert(0 <= l < ops2.len());
            assert(op_leads(gs2[l], rs2[l], ss2[l], ops2[l], gs2[l + 1], rs2[l + 1], ss2[l + 1]));
            assert(l + 1 == m);
            reveal(op_leads);
            match ops2[m - 1] {
                RunOp::Pick(s) => {
                    let res = choose|res: PickResult| #[trigger] picked(rs2[m - 1], s, rs2[m], res) && gs2[m] == gs2[m - 1] && ss2[m] == ss2[m - 1];
                },
                _ => {},
            }
        }
    }
}

spec fn agent_op_at(gs: Seq<GameState>, rs: Seq<RunState>, ss: Seq<Status>, ops: Seq<RunOp>, k: int) -> bool {
    crate::harness::agent_op(gs[k], rs[k], ss[k], ops[k])
}


proof fn lemma_id_slot_same(g: GameState, g_: GameState, s: Seq<usize>, idv: u32, p: int)
    requires
        same_ents(g.entities@, g_.entities@),
        forall|i: int| 0 <= i < s.len() ==> (#[trigger] s[i]) < g.entities@.len(),
        p <= s.len(),
    ensures
        id_slot(g, s, idv, p) == id_slot(g_, s, idv, p),
        p >= 0 ==> 0 <= id_slot(g, s, idv, p) <= p,
    decreases p,
{
    if p > 0 {
        assert(same_ent(g.entities@[s[p - 1] as int], g_.entities@[s[p - 1] as int]));
        lemma_id_slot_same(g, g_, s, idv, p - 1);
    }
}

/// Sorting by id reads only the entities' ids.
proof fn lemma_id_sorted_same(g: GameState, g_: GameState, s: Seq<usize>)
    requires
        same_ents(g.entities@, g_.entities@),
        forall|i: int| 0 <= i < s.len() ==> (#[trigger] s[i]) < g.entities@.len(),
    ensures
        id_sorted(g, s) == id_sorted(g_, s),
        forall|i: int| 0 <= i < id_sorted(g, s).len() ==> (#[trigger] id_sorted(g, s)[i]) < g.entities@.len(),
    decreases s.len(),
{
    if s.len() > 0 {
        let s1 = s.drop_last();
        lemma_id_sorted_same(g, g_, s1);
        let t = id_sorted(g, s1);
        let v = s.last();
        assert(same_ent(g.entities@[v as int], g_.entities@[v as int]));
        lemma_id_slot_same(g, g_, t, g.entities@[v as int].id, t.len() as int);
        let q = id_slot(g, t, g.entities@[v as int].id, t.len() as int);
        let r = t.insert(q, v);
        assert forall|i: int| 0 <= i < r.len() implies (#[trigger] r[i]) < g.entities@.len() by {
            if i < q {
                assert(r[i] == t[i]);
            } else if i > q {
                assert(r[i] == t[i - 1]);
            }
        }
    }
}

/// The alive indices of entity lists with the same content are the same.
proof fn lemma_alive_idx_same(s: Seq<Entity>, t: Seq<Entity>, n: int)
    requires
        same_ents(s, t),
        n <= s.len(),
    ensures
        alive_idx(s, n) == alive_idx(t, n),
        forall|i: int| 0 <= i < alive_idx(s, n).len() ==> (#[trigger] alive_idx(s, n)[i]) < s.len(),
    decreases n,
{
    if n > 0 {
        assert(same_ent(s[n - 1], t[n - 1]));
        lemma_alive_idx_same(s, t, n - 1);
    }
}

/// A battle and run with the same content are written as the same text.
pub proof fn lemma_state_text_same(g: GameState, run: RunState, g_: GameState, run_: RunState, st: Status)
    requires
        same_state(g, g_),
        same_run(run, run_),
    ensures
        state_text(g, run, st) == state_text(g_, run_, st),
{
    let n = g.entities@.len() as int;
    lemma_alive_idx_same(g.entities@, g_.entities@, n);
    let a = alive_idx(g.entities@, n);
    lemma_id_sorted_same(g, g_, a);
    let o = id_sorted(g, a);
    let u = o.map_values(|i: usize| unit_text(g.entities@[i as int]));
    let u_ = o.map_values(|i: usize| unit_text(g_.entities@[i as int]));
    assert forall|k: int| 0 <= k < u.len() implies #[trigger] u[k] == u_[k] by {
        assert(same_ent(g.entities@[o[k] as int], g_.entities@[o[k] as int]));
    }
    assert(u =~= u_);
    let f = g.fire@.map_values(|r: Vec<i32>| crate::render::row_text(r@.map_values(|v: i32| v as int)));
    let f_ = g_.fire@.map_values(|r: Vec<i32>| crate::render::row_text(r@.map_values(|v: i32| v as int)));
    assert forall|k: int| 0 <= k < f.len() implies #[trigger] f[k] == f_[k] by {
        assert(g.fire@[k]@ == g_.fire@[k]@);
    }
    assert(f =~= f_);
    let w = g.tiles@.map_values(|r: Vec<Tile>| name_row(r@));
    let w_ = g_.tiles@.map_values(|r: Vec<Tile>| name_row(r@));
    assert forall|k: int| 0 <= k < w.len() implies #[trigger] w[k] == w_[k] by {
        assert(g.tiles@[k]@ == g_.tiles@[k]@);
    }
    assert(w =~= w_);
    assert(run.acquired@.map_values(|sp: Spell| quoted_id(sp)) =~= run_.acquired@.map_values(|sp: Spell| quoted_id(sp)));
    assert(run.acquired@.map_values(
        |sp: Spell| quoted_id(sp) + ":".spec_bytes() + int_dec(run.tiers.tier_by_name(spell_name(sp)) as int),
    ) =~= run_.acquired@.map_values(
        |sp: Spell| quoted_id(sp) + ":".spec_bytes() + int_dec(run_.tiers.tier_by_name(spell_name(sp)) as int),
    ));
}

/// Entries written from states with the same content are the same.
proof fn lemma_entries_same(
    ops: Seq<RunOp>,
    gs: Seq<GameState>,
    rs: Seq<RunState>,
    ss: Seq<Status>,
    gs2: Seq<GameState>,
    rs2: Seq<RunState>,
    ss2: Seq<Status>,
    n: int,
)
    requires
        0 <= n <= ops.len(),
        forall|k: int| 0 <= k <= ops.len() ==> same_state(#[trigger] gs[k], gs2[k]) && same_run(rs[k], rs2[k]) && ss[k] == ss2[k],
    ensures
        crate::trace::trace_entries(ops, gs, rs, ss, n) == crate::trace::trace_entries(ops, gs2, rs2, ss2, n),
    decreases n,
{
    assert(same_state(gs[n], gs2[n]));
    lemma_state_text_same(gs[n], rs[n], gs2[n], rs2[n], ss[n]);
    if n > 0 {
        lemma_entries_same(ops, gs, rs, ss, gs2, rs2, ss2, n - 1);
    }
}

/// `trace_json` is a function of its arguments: any two traces it may give for the same
/// seed and budget are the same bytes.
pub proof fn law_trace_json_unique(seed: u32, budget: usize, t1: Seq<u8>, t2: Seq<u8>)
    requires
        exists|ops: Seq<RunOp>, gs: Seq<GameState>, rs: Seq<RunState>, ss: Seq<Status>|
            #[trigger] run_trace(seed, ops, true, gs, rs, ss) && crate::trace::run_stopped(ops, ss.last(), budget) && t1
                == crate::trace::trace_text(seed, ops, gs, rs, ss),
        exists|ops: Seq<RunOp>, gs: Seq<GameState>, rs: Seq<RunState>, ss: Seq<Status>|
            #[trigger] run_trace(seed, ops, true, gs, rs, ss) && crate::trace::run_stopped(ops, ss.last(), budget) && t2
                == crate::trace::trace_text(seed, ops, gs, rs, ss),
    ensures
        t1 == t2,
{
    let (ops, gs, rs, ss) = choose|ops: Seq<RunOp>, gs: Seq<GameState>, rs: Seq<RunState>, ss: Seq<Status>|
        #[trigger] run_trace(seed, ops, true, gs, rs, ss) && crate::trace::run_stopped(ops, ss.last(), budget) && t1
            == crate::trace::trace_text(seed, ops, gs, rs, ss);
    let (ops2, gs2, rs2, ss2) = choose|ops: Seq<RunOp>, gs: Seq<GameState>, rs: Seq<RunState>, ss: Seq<Status>|
        #[trigger] run_trace(seed, ops, true, gs, rs, ss) && crate::trace::run_stopped(ops, ss.last(), budget) && t2
            == crate::trace::trace_text(seed, ops, gs, rs, ss);
    law_agent_run_unique(seed, budget, ops, gs, rs, ss, ops2, gs2, rs2, ss2);
    lemma_entries_same(ops, gs, rs, ss, gs2, rs2, ss2, ops.len() as int);
}

} // verus!
