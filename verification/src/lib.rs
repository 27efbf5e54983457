//! Deterministic battle simulation of a turn-based roguelite: integer time chain,
//! grid terrain with fire and oil, spells, enemy behaviour and the run layer.
//!
//! `step` applies one player action and runs the time chain until the mage is to act
//! again or the battle ends; `project_chain` projects the coming turn order.
pub mod ai;
pub mod config;
pub mod damage;
pub mod determinism;
pub mod events;
pub mod grid;
pub mod harness;
pub mod movement;
pub mod ready;
pub mod render;
pub mod roguelite;
pub mod spells;
pub mod state;
pub mod terrain;
pub mod time_chain;
pub mod trace;
pub mod turns;

pub use damage::{StepCtx, TierTable};
pub use events::{Event, Status};
pub use roguelite::{
    apply_drop, apply_pick, gen_offers, hash32, init_base, init_room, rng_for, Mulberry32, Op, PickResult, RunState,
};
pub use spells::{Element, Reject, Spell, Target, TargetKind};
pub use state::{Channel, Entity, GameState, Kind, Tile};

use crate::config::{POTION_HEAL, ROOM_COUNT};
use crate::grid::{coord_ok, ent_index_at, in_bounds, walkable};
use crate::movement::{astar_path, find_path, move_mage_to, path_exists, walk_brake};
use crate::spells::{cast, initiate, resolve_heavy, validate, validate_spec};
use crate::state::{first_index, is_alive, lemma_first_index, lemma_first_index_at, mage_pred};
use crate::time_chain::{advanced, is_next_actor, key_lt, next_actor_index};
use crate::turns::{acted, chain_rel, chain_round, mage_turn, released};
use crate::terrain::{burn_all, lit_list};
use crate::terrain::fire_tick;
use crate::ai::enemy_act;
use vstd::prelude::*;

verus! {

/// Turns the time chain may run within one step before control returns to the player.
pub const CHAIN_GUARD: u32 = 100_000;

/// What the player orders on the mage's turn.
#[derive(Clone, Copy, Debug, PartialEq, Eq, Structural)]
pub enum Action {
    /// Walk to a cell (the path is found by the simulation).
    MoveTo { x: i32, y: i32 },
    /// Cast a spell (a two-turn spell starts charging).
    Cast { spell: Spell, target: Target },
    /// Release the charged spell.
    Release,
    /// Do nothing for one turn.
    Wait,
    /// Drink a healing potion.
    Potion,
}

/// Result of one `step`. `rejected` is set when the action was illegal; no time passed.
#[derive(Clone, Debug)]
pub struct StepResult {
    pub events: Vec<Event>,
    pub status: Status,
    pub rejected: Option<Reject>,
}

/// One slot of the projected turn order.
#[derive(Clone, Copy, Debug, PartialEq, Eq, Structural)]
pub struct ChainSlot {
    pub kind: Kind,
    pub id: u32,
    /// This slot is the mage's release of its charged spell.
    pub releasing: bool,
}

/// The mage stands on the board.
pub open spec fn mage_on_board(g: GameState) -> bool {
    g.inb(g.mage_spec().x as int, g.mage_spec().y as int)
}

/// The mage's charged target (if any) is within coordinate bounds.
pub open spec fn channel_ok(g: GameState) -> bool {
    g.mage_spec().channel matches Some(ch) ==> coord_ok(ch.tx as int) && coord_ok(ch.ty as int)
}

/// The mage's remaining auto-walk cells are within coordinate bounds.
pub open spec fn path_ok(g: GameState) -> bool {
    g.mage_spec().path matches Some(p) ==> forall|k: int|
        0 <= k < p@.len() ==> coord_ok((#[trigger] p@[k]).0 as int) && coord_ok(p@[k].1 as int)
}

/// What every turn relies on.
pub open spec fn turn_ok(g: GameState) -> bool {
    &&& g.wf()
    &&& g.has_mage()
    &&& mage_on_board(g)
    &&& channel_ok(g)
    &&& path_ok(g)
}

/// Ends the mage's action: its time advances by one step of its speed and one hasted
/// turn is used up.
fn end_mage_turn(g: &mut GameState)
    requires
        old(g).wf(),
        old(g).has_mage(),
        old(g).mage_spec().time <= i64::MAX - 12,
    ensures
        final(g).entities@ == old(g).entities@.update(old(g).mage_index(), advanced(old(g).mage_spec())),
        crate::spells::same_board(*old(g), *final(g)),
        final(g).room_idx == old(g).room_idx,
        final(g).core == old(g).core,
        final(g).wf(),
        final(g).has_mage(),
        final(g).mage_index() == old(g).mage_index(),
        final(g).mage_spec().time >= old(g).mage_spec().time + 3,
{
    let ghost g0 = *g;
    proof {
        lemma_first_index(g.entities@, mage_pred());
        crate::config::law_time_step_exact(
            crate::state::eff_speed_spec(g.mage_spec()),
            crate::state::eff_speed_spec(g.mage_spec()),
        );
        crate::config::law_clamp_speed(crate::state::eff_speed_spec(g.mage_spec()));
        let st = crate::config::time_step_spec(crate::state::eff_speed_spec(g.mage_spec())) as int;
        let c = crate::config::clamp_speed_spec(crate::state::eff_speed_spec(g.mage_spec())) as int;
        assert(st >= 3) by (nonlinear_arith)
            requires
                st * c == 12,
                1 <= c <= 4,
        ;
    }
    let m = g.mage_mut();
    crate::time_chain::advance_time(m);
    proof {
        crate::movement::lemma_ents_kinds(g0.entities@, g.entities@);
        assert forall|i: int| 0 <= i < g.entities@.len() implies crate::state::is_alive_enemy(
            #[trigger] g0.entities@[i],
        ) == crate::state::is_alive_enemy(g.entities@[i]) by {}
        crate::state::lemma_count_same(g0.entities@, g.entities@);
        assert forall|i: int| 0 <= i < g.entities@.len() implies crate::state::ent_ok(#[trigger] g.entities@[i]) by {
            assert(crate::state::ent_ok(g0.entities@[i]));
        }
        crate::state::lemma_grids_same(*g, g0);
        assert(g.mage_spec() == advanced(g0.mage_spec()));
    }
}

pub open spec fn boss_pred() -> spec_fn(Entity) -> bool {
    |e: Entity| e.kind == Kind::Boss
}

/// How the battle stands, if it ended or the room was cleared: the mage fell; in a
/// base raid the core was reached or no defender is left; otherwise the (first) golem
/// died, or every enemy of a golem-free room died and another room follows.
pub open spec fn terminal_spec(g: GameState) -> Option<Status> {
    let m = g.mage_spec();
    if m.hp <= 0 {
        Some(Status::Defeat)
    } else {
        match g.core {
            Some(c) => if (m.x == c.0 && m.y == c.1) || g.alive_enemy_count() == 0 {
                Some(Status::RunComplete)
            } else {
                None
            },
            None => match first_index(g.entities@, boss_pred()) {
                Some(b) => if !is_alive(g.entities@[b]) {
                    Some(Status::RunComplete)
                } else {
                    None
                },
                None => if g.alive_enemy_count() == 0 && g.room_idx + 1 < ROOM_COUNT {
                    Some(Status::PickOffered)
                } else {
                    None
                },
            },
        }
    }
}

/// Index of the first golem.
fn boss_index(g: &GameState) -> (r: Option<usize>)
    ensures
        opt_usize(r) == first_index(g.entities@, boss_pred()),
        r matches Some(i) ==> i < g.entities@.len(),
{
    proof {
        lemma_first_index(g.entities@, boss_pred());
    }
    let mut i: usize = 0;
    while i < g.entities.len()
        invariant
            i <= g.entities@.len(),
            forall|j: int| 0 <= j < i ==> (#[trigger] g.entities@[j]).kind != Kind::Boss,
        decreases g.entities@.len() - i,
    {
        if g.entities[i].kind == Kind::Boss {
            proof {
                lemma_first_index_at(g.entities@, boss_pred(), i as int);
            }
            return Some(i);
        }
        i = i + 1;
    }
    None
}

pub open spec fn opt_usize(r: Option<usize>) -> Option<int> {
    match r {
        Some(i) => Some(i as int),
        None => None,
    }
}

/// How the battle stands (see `terminal_spec`).
fn terminal_status(g: &GameState) -> (r: Option<Status>)
    requires
        g.has_mage(),
    ensures
        r == terminal_spec(*g),
{
    let m = g.mage();
    if m.hp <= 0 {
        return Some(Status::Defeat);
    }
    match g.core {
        Some((cx, cy)) => {
            if (m.x == cx && m.y == cy) || g.alive_enemies() == 0 {
                return Some(Status::RunComplete);
            }
            return None;
        },
        None => {},
    }
    match boss_index(g) {
        Some(b) => {
            if !g.entities[b].alive() {
                return Some(Status::RunComplete);
            }
            None
        },
        None => {
            if g.alive_enemies() == 0 && g.room_idx < ROOM_COUNT - 1 {
                Some(Status::PickOffered)
            } else {
                None
            }
        },
    }
}

/// The move target is off the board, blocked, occupied, or the mage's own cell.
pub open spec fn blocked_dest(g: GameState, x: int, y: int) -> bool {
    let m = g.mage_spec();
    !g.inb(x, y) || crate::grid::blocks_spec(g.tile(x, y)) || g.ent_at(x, y) is Some || (x == m.x && y == m.y)
}

/// Why the action is refused: a drink with no potion or full hit points, a spell that
/// does not validate, a move to a blocked cell or to one no path leads to, or a release
/// with nothing charged.
pub open spec fn action_reject(g: GameState, run: RunState, a: Action) -> Option<Reject> {
    let m = g.mage_spec();
    match a {
        Action::Wait => None,
        Action::Potion => if run.potions == 0 || m.hp >= m.maxhp {
            Some(Reject::CannotDrink)
        } else {
            None
        },
        Action::Cast { spell, target } => match validate_spec(spell, g, target) {
            Err(r) => Some(r),
            Ok(_) => None,
        },
        Action::MoveTo { x, y } => move_reject(g, x as int, y as int),
        Action::Release => Some(Reject::NothingToRelease),
    }
}

/// What an accepted action keeps: the invariants hold, every clock moved by at most one
/// step and the mage's strictly, the board's size, room, core cell and the mage's slot
/// stay, and the events only grow.
pub open spec fn turn_done(a: GameState, b: GameState, ea: Seq<Event>, eb: Seq<Event>) -> bool {
    &&& turn_ok(b)
    &&& times_within(a.entities@, b.entities@, 1)
    &&& b.mage_spec().time > a.mage_spec().time
    &&& b.w == a.w
    &&& b.h == a.h
    &&& b.room_idx == a.room_idx
    &&& b.core == a.core
    &&& b.mage_index() == a.mage_index()
    &&& eb.len() >= ea.len()
    &&& eb.subrange(0, ea.len() as int) == ea
}

/// The events added after `ea`.
pub open spec fn ev_added(ea: Seq<Event>, eb: Seq<Event>) -> Seq<Event> {
    eb.subrange(ea.len() as int, eb.len() as int)
}

/// Why a move to `(x, y)` is refused: a blocked cell or no path to it.
pub open spec fn move_reject(g: GameState, x: int, y: int) -> Option<Reject> {
    let m = g.mage_spec();
    if blocked_dest(g, x, y) {
        Some(Reject::BlockedDestination)
    } else if !path_exists(g, m.x as int, m.y as int, x, y) {
        Some(Reject::NoPath)
    } else {
        None
    }
}

/// Drinking a potion: the mage heals by `POTION_HEAL` up to its maximum and its turn ends.
fn drink_turn(g: &mut GameState, ctx: &mut StepCtx)
    requires
        turn_ok(*old(g)),
        old(g).mage_spec().time <= i64::MAX - 12,
        old(g).mage_spec().hp < old(g).mage_spec().maxhp,
    ensures
        turn_done(*old(g), *final(g), old(ctx).events@, final(ctx).events@),
        final(ctx).tiers == old(ctx).tiers,
        acted(
            *old(g),
            Action::Potion,
            old(ctx).tiers,
            old(ctx).mage_hurt,
            *final(g),
            final(ctx).mage_hurt,
            ev_added(old(ctx).events@, final(ctx).events@),
        ),
{
    let ghost g0 = *g;
    let ghost e0 = ctx.events@;
    proof {
        lemma_first_index(g.entities@, mage_pred());
        assert(crate::state::ent_ok(g.mage_spec()));
    }
    let (hp, maxhp) = {
        let m = g.mage();
        (m.hp, m.maxhp)
    };
        let healed = if hp + POTION_HEAL <= maxhp {
            hp + POTION_HEAL
        } else {
            maxhp
        } - hp;
        let m = g.mage_mut();
        m.hp = m.hp + healed;
        let id = m.id;
        ctx.events.push(Event::Healed { id, amt: healed });
        proof {
            lemma_mage_edit(g0, *g);
            assert(g.mage_spec().time == g0.mage_spec().time);
        }
        let ghost g1 = *g;
        end_mage_turn(g);
        proof {
            lemma_turn_ok_kept(g0, g1);
            lemma_turn_ok_kept(g1, *g);
            let m0 = g0.mage_spec();
            let healed = if m0.hp + POTION_HEAL <= m0.maxhp {
                POTION_HEAL as int
            } else {
                m0.maxhp - m0.hp
            };
            let m1 = Entity { hp: (m0.hp + healed) as i32, ..m0 };
            assert(g1.mage_spec() == m1);
            assert(g1.entities@ == g0.entities@.update(g0.mage_index(), m1));
            assert(g.entities@ =~= g0.entities@.update(g0.mage_index(), advanced(m1)));
            assert(ctx.events@.subrange(e0.len() as int, ctx.events@.len() as int) =~= seq![
                Event::Healed { id: m0.id, amt: healed as i32 },
            ]);
            assert(ctx.events@.subrange(0, e0.len() as int) =~= e0);
        }
}

/// Casting a validated spell: it resolves, or a two-turn spell starts charging (see
/// `cast_done`).
fn cast_now(g: &mut GameState, spell: Spell, target: Target, ctx: &mut StepCtx)
    requires
        turn_ok(*old(g)),
        validate_spec(spell, *old(g), target) is Ok,
    ensures
        turn_ok(*final(g)),
        final(g).w == old(g).w,
        final(g).h == old(g).h,
        final(g).room_idx == old(g).room_idx,
        final(g).core == old(g).core,
        final(g).mage_index() == old(g).mage_index(),
        final(g).mage_spec().time == old(g).mage_spec().time,
        crate::state::times_kept(old(g).entities@, final(g).entities@),
        final(ctx).tiers == old(ctx).tiers,
        final(ctx).mage_hurt == old(ctx).mage_hurt,
        final(ctx).events@.len() >= old(ctx).events@.len(),
        final(ctx).events@.subrange(0, old(ctx).events@.len() as int) == old(ctx).events@,
        crate::turns::cast_done(*old(g), *final(g), spell, target, old(ctx).tiers, ev_added(old(ctx).events@, final(ctx).events@)),
{
    let ghost g0 = *g;
    let ghost e0 = ctx.events@;
    proof {
        lemma_first_index(g.entities@, mage_pred());
        assert(crate::state::ent_ok(g.mage_spec()));
    }
    if spell.is_channel() {
        initiate(spell, g, target, ctx);
    } else {
        cast(spell, g, target, ctx);
    }
    proof {
        let e1 = ev_added(e0, ctx.events@);
        if crate::spells::is_channel_spec(spell) {
            assert(g.mage_spec().channel matches Some(ch) && ch.tx == target.x && ch.ty == target.y);
            assert(g0.w <= crate::state::COORD_CAP && g0.h <= crate::state::COORD_CAP);
            assert(e1 =~= seq![ctx.events@.last()]);
        } else {
            crate::spells::lemma_cast_times(
                spell,
                g0,
                *g,
                target,
                ctx.tiers,
                ctx.events@.subrange(e0.len() + 1int, ctx.events@.len() as int),
            );
            lemma_first_index(g.entities@, mage_pred());
            assert(g.mage_spec().kind == Kind::Mage);
            assert(e1.drop_first() =~= ctx.events@.subrange(e0.len() + 1int, ctx.events@.len() as int));
        }
        assert(g.mage_spec().time == g0.mage_spec().time);
        assert(ctx.events@.subrange(0, e0.len() as int) =~= e0);
    }
}

/// Casting a validated spell, after which the mage's turn ends.
fn cast_turn(g: &mut GameState, spell: Spell, target: Target, ctx: &mut StepCtx)
    requires
        turn_ok(*old(g)),
        old(g).mage_spec().time <= i64::MAX - 12,
        validate_spec(spell, *old(g), target) is Ok,
    ensures
        turn_done(*old(g), *final(g), old(ctx).events@, final(ctx).events@),
        final(ctx).tiers == old(ctx).tiers,
        acted(
            *old(g),
            Action::Cast { spell, target },
            old(ctx).tiers,
            old(ctx).mage_hurt,
            *final(g),
            final(ctx).mage_hurt,
            ev_added(old(ctx).events@, final(ctx).events@),
        ),
{
    let ghost g0 = *g;
    let ghost e0 = ctx.events@;
    cast_now(g, spell, target, ctx);
    let ghost g1 = *g;
    proof {
        lemma_first_index(g.entities@, mage_pred());
    }
    end_mage_turn(g);
    proof {
        lemma_turn_ok_kept(g1, *g);
        lemma_cast_acted(g0, g1, *g, spell, target, old(ctx).tiers, ctx.mage_hurt, ev_added(e0, ctx.events@));
    }
}

proof fn lemma_cast_acted(
    g0: GameState,
    g1: GameState,
    g2: GameState,
    spell: Spell,
    target: Target,
    t: TierTable,
    h: bool,
    e1: Seq<Event>,
)
    requires
        crate::turns::cast_done(g0, g1, spell, target, t, e1),
        crate::turns::turn_ended(g1, g2),
    ensures
        acted(g0, Action::Cast { spell, target }, t, h, g2, h, e1),
{
    let a = Action::Cast { spell, target };
    assert(a matches Action::Cast { spell: s2, target: t2 } && s2 == spell && t2 == target);
    assert(exists|ga: GameState| #[trigger] crate::turns::cast_done(g0, ga, spell, target, t, e1) && crate::turns::turn_ended(ga, g2));
}

proof fn lemma_move_acted(
    g0: GameState,
    g1: GameState,
    g2: GameState,
    g3: GameState,
    x: i32,
    y: i32,
    p: Seq<(i32, i32)>,
    auto: bool,
    t: TierTable,
    h0: bool,
)
    requires
        astar_path(g0, g0.mage_spec().x as int, g0.mage_spec().y as int, x as int, y as int) == Some(p),
        crate::movement::path_valid(g0, g0.mage_spec().x as int, g0.mage_spec().y as int, x as int, y as int, p),
        auto == crate::turns::auto_walk(g0, p),
        crate::turns::walk_set(g0, g1, p, auto),
        crate::turns::stepped(g1, g2, p[0].0 as int, p[0].1 as int, t),
        crate::turns::turn_ended(g2, g3),
    ensures
        acted(
            g0,
            Action::MoveTo { x, y },
            t,
            h0,
            g3,
            crate::turns::step_hurts(g1, p[0].0 as int, p[0].1 as int),
            crate::movement::mage_move_events(g1, p[0].0 as int, p[0].1 as int, t),
        ),
{
    assert(exists|ga: GameState, gb: GameState|
        #[trigger] crate::turns::walk_set(g0, ga, p, crate::turns::auto_walk(g0, p)) && #[trigger] crate::turns::stepped(
            ga,
            gb,
            p[0].0 as int,
            p[0].1 as int,
            t,
        ) && crate::turns::turn_ended(gb, g3) && crate::turns::step_hurts(g1, p[0].0 as int, p[0].1 as int)
            == crate::turns::step_hurts(ga, p[0].0 as int, p[0].1 as int) && crate::movement::mage_move_events(
            g1,
            p[0].0 as int,
            p[0].1 as int,
            t,
        ) == crate::movement::mage_move_events(ga, p[0].0 as int, p[0].1 as int, t));
    let m = g0.mage_spec();
    let q = astar_path(g0, m.x as int, m.y as int, x as int, y as int);
    assert(q->0 == p);
    assert(crate::turns::walk_set(g0, g1, q->0, crate::turns::auto_walk(g0, q->0)));
    assert(crate::turns::stepped(g1, g2, q->0[0].0 as int, q->0[0].1 as int, t));
}

/// Moving toward `(x, y)`: refused when the cell is blocked or unreachable; otherwise the
/// mage takes the first cell of the path and keeps the rest as its walk (see `acted`).
#[verifier::rlimit(40)]
fn move_turn(g: &mut GameState, x: i32, y: i32, ctx: &mut StepCtx) -> (r: Result<(), Reject>)
    requires
        turn_ok(*old(g)),
        old(g).mage_spec().time <= i64::MAX - 12,
    ensures
        move_reject(*old(g), x as int, y as int) matches Some(e) ==> r == Err::<(), Reject>(e),
        r matches Err(e) ==> Some(e) == move_reject(*old(g), x as int, y as int),
        r is Err ==> *final(g) == *old(g) && final(ctx).events@ == old(ctx).events@,
        r is Ok ==> turn_done(*old(g), *final(g), old(ctx).events@, final(ctx).events@),
        final(ctx).tiers == old(ctx).tiers,
        r is Ok ==> acted(
            *old(g),
            Action::MoveTo { x, y },
            old(ctx).tiers,
            old(ctx).mage_hurt,
            *final(g),
            final(ctx).mage_hurt,
            ev_added(old(ctx).events@, final(ctx).events@),
        ),
{
    let ghost g0 = *g;
    let ghost e0 = ctx.events@;
    proof {
        lemma_first_index(g.entities@, mage_pred());
        assert(crate::state::ent_ok(g.mage_spec()));
    }
        let (mx, my) = {
            let m = g.mage();
            (m.x, m.y)
        };
        if !in_bounds(g, x, y) || !walkable(g, x, y) || ent_index_at(g, x, y).is_some() || (x == mx && y == my) {
            return Err(Reject::BlockedDestination);
        }
        let path = match find_path(g, mx, my, x, y) {
            Some(p) => p,
            None => {
                return Err(Reject::NoPath);
            },
        };
        if path.len() == 0 {
            return Err(Reject::NoPath);
        }
        let next = path[0];
        ctx.mage_hurt = false;
        let auto = path.len() > 1 && !walk_brake(g, Some(next), ctx);
        let ghost pv = path@;
        let mut rest = path;
        rest.remove(0);
        proof {
            assert(rest@ =~= pv.drop_first());
        }
        let m = g.mage_mut();
        m.path = if auto {
            Some(rest)
        } else {
            None
        };
        proof {
            lemma_mage_edit(g0, *g);
        }
        let ghost g1 = *g;
        move_mage_to(g, next.0, next.1, ctx);
        let ghost g2 = *g;
        proof {
            assert(g1.mage_spec().time == g0.mage_spec().time);
            crate::movement::lemma_mage_move_times(g1, next.0 as int, next.1 as int, ctx.tiers);
            assert(g2.mage_spec().time == g1.mage_spec().time);
        }
        end_mage_turn(g);
        proof {
            lemma_turn_ok_kept(g2, *g);
            let e1 = ctx.events@.subrange(e0.len() as int, ctx.events@.len() as int);
            assert(ctx.events@.subrange(0, e0.len() as int) =~= e0);
            assert(e1 =~= crate::movement::mage_move_events(g1, next.0 as int, next.1 as int, ctx.tiers));
            assert(crate::turns::walk_set(g0, g1, pv, auto));
            assert(crate::turns::stepped(g1, g2, next.0 as int, next.1 as int, ctx.tiers));
            assert(crate::turns::turn_ended(g2, *g));
            assert(e1 == ev_added(e0, ctx.events@));
            lemma_move_acted(g0, g1, g2, *g, x, y, pv, auto, ctx.tiers, old(ctx).mage_hurt);
        }
        Ok(())
}

/// Applies the player's action and ends the mage's turn; an illegal action changes
/// nothing and tells why.
fn apply_action(g: &mut GameState, run: &mut RunState, action: Action, ctx: &mut StepCtx) -> (r: Result<(), Reject>)
    requires
        turn_ok(*old(g)),
        old(g).mage_spec().time <= i64::MAX - 12,
    ensures
        action_reject(*old(g), *old(run), action) matches Some(e) ==> r == Err::<(), Reject>(e),
        r matches Err(e) ==> Some(e) == action_reject(*old(g), *old(run), action),
        r is Err ==> *final(g) == *old(g) && final(run).potions == old(run).potions && final(ctx).events@ == old(
            ctx,
        ).events@,
        r is Ok ==> turn_ok(*final(g)),
        r is Ok ==> times_within(old(g).entities@, final(g).entities@, 1),
        r is Ok ==> final(g).mage_spec().time > old(g).mage_spec().time,
        final(run).run_seed == old(run).run_seed,
        final(run).acquired == old(run).acquired,
        final(run).tiers == old(run).tiers,
        final(run).room_idx == old(run).room_idx,
        final(run).op_log == old(run).op_log,
        final(run).potions == if r is Ok && action is Potion {
            (old(run).potions - 1) as u32
        } else {
            old(run).potions
        },
        final(ctx).tiers == old(ctx).tiers,
        final(g).w == old(g).w,
        final(g).h == old(g).h,
        final(g).room_idx == old(g).room_idx,
        final(g).core == old(g).core,
        final(g).mage_index() == old(g).mage_index(),
        final(ctx).events@.len() >= old(ctx).events@.len(),
        final(ctx).events@.subrange(0, old(ctx).events@.len() as int) == old(ctx).events@,
        r is Ok ==> acted(
            *old(g),
            action,
            old(ctx).tiers,
            old(ctx).mage_hurt,
            *final(g),
            final(ctx).mage_hurt,
            final(ctx).events@.subrange(old(ctx).events@.len() as int, final(ctx).events@.len() as int),
        ),
{
    let ghost g0 = *g;
    let ghost e0 = ctx.events@;
    proof {
        lemma_first_index(g.entities@, mage_pred());
        assert(crate::state::ent_ok(g.mage_spec()));
    }
    match action {
        Action::Wait => {
            end_mage_turn(g);
            proof {
                lemma_turn_ok_kept(g0, *g);
                assert(ctx.events@.subrange(e0.len() as int, ctx.events@.len() as int) =~= Seq::<Event>::empty());
                assert(ctx.events@.subrange(0, e0.len() as int) =~= e0);
            }
            Ok(())
        },
        Action::Potion => {
            let (hp, maxhp) = {
                let m = g.mage();
                (m.hp, m.maxhp)
            };
            if run.potions == 0 || hp >= maxhp {
                return Err(Reject::CannotDrink);
            }
            run.potions = run.potions - 1;
            drink_turn(g, ctx);
            Ok(())
        },
        Action::Cast { spell, target } => {
            match validate(spell, g, target) {
                Err(e) => {
                    return Err(e);
                },
                Ok(()) => {},
            }
            cast_turn(g, spell, target, ctx);
            Ok(())
        },
        Action::MoveTo { x, y } => move_turn(g, x, y, ctx),
        Action::Release => Err(Reject::NothingToRelease),
    }
}

proof fn lemma_turn_ok_kept(a: GameState, b: GameState)
    requires
        turn_ok(a),
        b.wf(),
        b.has_mage(),
        b.w == a.w,
        b.h == a.h,
        b.mage_spec().x == a.mage_spec().x,
        b.mage_spec().y == a.mage_spec().y,
        b.mage_spec().path == a.mage_spec().path || b.mage_spec().path is None,
        crate::state::chan_target(b.mage_spec().channel) == crate::state::chan_target(a.mage_spec().channel)
            || b.mage_spec().channel is None,
    ensures
        turn_ok(b),
{
}

/// Editing only the mage (not its kind, haste, position or time) keeps the invariants.
proof fn lemma_mage_edit(a: GameState, b: GameState)
    requires
        a.wf(),
        a.has_mage(),
        crate::spells::same_board(a, b),
        b.entities@.len() == a.entities@.len(),
        forall|i: int| 0 <= i < a.entities@.len() && i != a.mage_index() ==> #[trigger] b.entities@[i] == a.entities@[i],
        b.entities@[a.mage_index()].kind == Kind::Mage,
        b.entities@[a.mage_index()].haste_turns == a.mage_spec().haste_turns,
        crate::state::ent_ok(b.entities@[a.mage_index()]),
    ensures
        b.wf(),
        b.has_mage(),
        b.mage_index() == a.mage_index(),
{
    lemma_first_index(a.entities@, mage_pred());
    crate::movement::lemma_ents_kinds(a.entities@, b.entities@);
    assert forall|i: int| 0 <= i < a.entities@.len() implies crate::state::is_alive_enemy(#[trigger] a.entities@[i])
        == crate::state::is_alive_enemy(b.entities@[i]) by {}
    crate::state::lemma_count_same(a.entities@, b.entities@);
    assert forall|i: int| 0 <= i < b.entities@.len() implies crate::state::ent_ok(#[trigger] b.entities@[i]) by {
        if i != a.mage_index() {
            assert(crate::state::ent_ok(a.entities@[i]));
        }
    }
    crate::state::lemma_grids_same(b, a);
}

/// Every entity's time grew by at most `12 * n` since `a`.
pub open spec fn times_within(a: Seq<Entity>, b: Seq<Entity>, n: int) -> bool {
    &&& b.len() == a.len()
    &&& forall|i: int| 0 <= i < a.len() ==> a[i].time <= (#[trigger] b[i]).time <= a[i].time + 12 * n
}

/// Sum of all clocks.
pub open spec fn total_time(s: Seq<Entity>) -> int
    decreases s.len(),
{
    if s.len() == 0 {
        0
    } else {
        total_time(s.drop_last()) + s.last().time
    }
}

/// The state holds a single mage.
pub open spec fn one_mage(g: GameState) -> bool {
    forall|i: int| 0 <= i < g.entities@.len() && (#[trigger] g.entities@[i]).kind == Kind::Mage ==> i == g.mage_index()
}

/// The mage is the next to act.
pub open spec fn mage_next(g: GameState) -> bool {
    is_next_actor(g.entities@, g.mage_index())
}

proof fn lemma_total_update(s: Seq<Entity>, i: int, e: Entity)
    requires
        0 <= i < s.len(),
    ensures
        total_time(s.update(i, e)) == total_time(s) - s[i].time + e.time,
    decreases s.len(),
{
    let t = s.update(i, e);
    if i < s.len() - 1 {
        lemma_total_update(s.drop_last(), i, e);
        assert(t.drop_last() == s.drop_last().update(i, e));
    } else {
        assert(t.drop_last() == s.drop_last());
    }
}

proof fn lemma_total_within(a: Seq<Entity>, b: Seq<Entity>, n: int)
    requires
        times_within(a, b, n),
    ensures
        total_time(b) >= total_time(a),
    decreases a.len(),
{
    if a.len() > 0 {
        assert(times_within(a.drop_last(), b.drop_last(), n)) by {
            assert forall|i: int| 0 <= i < a.drop_last().len() implies a.drop_last()[i].time <= (
            #[trigger] b.drop_last()[i]).time <= a.drop_last()[i].time + 12 * n by {
                assert(a.drop_last()[i] == a[i] && b.drop_last()[i] == b[i]);
            }
        }
        lemma_total_within(a.drop_last(), b.drop_last(), n);
        assert(a.last() == a[a.len() - 1] && b.last() == b[b.len() - 1]);
    }
}

proof fn lemma_total_kept(a: Seq<Entity>, b: Seq<Entity>)
    requires
        crate::state::times_kept(a, b),
    ensures
        total_time(b) == total_time(a),
    decreases a.len(),
{
    if a.len() > 0 {
        assert(crate::state::times_kept(a.drop_last(), b.drop_last())) by {
            assert forall|i: int| 0 <= i < a.drop_last().len() implies (#[trigger] b.drop_last()[i]).time
                == a.drop_last()[i].time && b.drop_last()[i].kind == a.drop_last()[i].kind && b.drop_last()[i].id
                == a.drop_last()[i].id by {
                assert(a.drop_last()[i] == a[i] && b.drop_last()[i] == b[i]);
            }
        }
        lemma_total_kept(a.drop_last(), b.drop_last());
        assert(a.last() == a[a.len() - 1] && b.last() == b[b.len() - 1]);
    }
}

/// Clocks, kinds and ids are kept, and nobody comes back to life.
pub open spec fn turn_kept(a: Seq<Entity>, b: Seq<Entity>) -> bool {
    &&& crate::state::times_kept(a, b)
    &&& forall|j: int| 0 <= j < b.len() && is_alive(#[trigger] b[j]) ==> is_alive(a[j])
}

proof fn lemma_turn_kept_trans(a: Seq<Entity>, b: Seq<Entity>, c: Seq<Entity>)
    requires
        turn_kept(a, b),
        turn_kept(b, c),
    ensures
        turn_kept(a, c),
{
    crate::state::lemma_times_kept_trans(a, b, c);
}

/// Handing control back on a mage's turn: with a single mage, that mage is next.
proof fn lemma_turn_back(a: GameState, b: GameState, ai: int)
    requires
        is_next_actor(a.entities@, ai),
        a.entities@[ai].kind == Kind::Mage,
        turn_kept(a.entities@, b.entities@),
        b.has_mage(),
        is_alive(b.mage_spec()),
    ensures
        one_mage(b) ==> mage_next(b),
{
    if one_mage(b) {
        assert(b.entities@[ai].kind == Kind::Mage);
        assert(ai == b.mage_index());
        lemma_next_kept(a.entities@, b.entities@, ai);
    }
}

/// The next actor stays next when clocks, kinds and ids are kept and nobody comes back
/// to life.
proof fn lemma_next_kept(a: Seq<Entity>, b: Seq<Entity>, i: int)
    requires
        is_next_actor(a, i),
        crate::state::times_kept(a, b),
        is_alive(b[i]),
        forall|j: int| 0 <= j < b.len() && is_alive(#[trigger] b[j]) ==> is_alive(a[j]),
    ensures
        is_next_actor(b, i),
{
    assert forall|j: int| 0 <= j < b.len() && is_alive(#[trigger] b[j]) implies !key_lt(b[j], b[i]) by {
        assert(is_alive(a[j]));
    }
    assert forall|j: int| 0 <= j < i && is_alive(#[trigger] b[j]) implies key_lt(b[i], b[j]) by {
        assert(is_alive(a[j]));
    }
}

/// The status `r` reported for the final state `g`: its terminal status when there is
/// one, otherwise the mage is to act (freely, or on the release of its charge).
pub open spec fn status_fits(g: GameState, r: Status) -> bool {
    match terminal_spec(g) {
        Some(s) => r == s,
        None => r == Status::AwaitingInput || r == Status::AwaitingRelease,
    }
}

/// The mage's charge stands on its release turn.
pub open spec fn charge_ready(g: GameState) -> bool {
    g.mage_spec().channel matches Some(ch) && ch.ready
}

/// Waiting for the release: the mage's charge survived its wind-up.
pub open spec fn release_ready(g: GameState) -> bool {
    g.mage_spec().channel matches Some(ch) && ch.ready && !ch.interrupted
}

proof fn lemma_within_step(a: Seq<Entity>, b: Seq<Entity>, c: Seq<Entity>, n: int, i: int)
    requires
        times_within(a, b, n),
        c.len() == b.len(),
        0 <= i < b.len(),
        forall|j: int| 0 <= j < b.len() && j != i ==> (#[trigger] c[j]).time == b[j].time,
        b[i].time <= c[i].time <= b[i].time + 12,
        n >= 0,
    ensures
        times_within(a, c, n + 1),
{
}

/// Every entity's time in `c` is within `n + m` steps of `a`, given `b` in between.
proof fn lemma_within_trans(a: Seq<Entity>, b: Seq<Entity>, c: Seq<Entity>, n: int, m: int)
    requires
        times_within(a, b, n),
        times_within(b, c, m),
    ensures
        times_within(a, c, n + m),
{
    assert forall|i: int| 0 <= i < a.len() implies a[i].time <= (#[trigger] c[i]).time <= a[i].time + 12 * (n + m) by {
        assert(a[i].time <= b[i].time <= a[i].time + 12 * n);
        assert(b[i].time <= c[i].time <= b[i].time + 12 * m);
    }
}

/// One round of the time chain (see `chain_round`): the next actor acts (a fire tick
/// comes before the mage's turn, which releases control, readies a charge, or takes the
/// next auto-walk step). `None` when the chain goes on, else the status it stops with.
#[verifier::rlimit(100)]
fn chain_step(g: &mut GameState, ctx: &mut StepCtx) -> (r: Option<Status>)
    requires
        turn_ok(*old(g)),
        terminal_spec(*old(g)) is None,
        old(g).time_room(1),
    ensures
        turn_ok(*final(g)),
        final(g).w == old(g).w,
        final(g).h == old(g).h,
        final(g).room_idx == old(g).room_idx,
        final(g).core == old(g).core,
        final(g).mage_index() == old(g).mage_index(),
        final(ctx).tiers == old(ctx).tiers,
        times_within(old(g).entities@, final(g).entities@, 1),
        r is None ==> terminal_spec(*final(g)) is None && total_time(final(g).entities@) >= total_time(
            old(g).entities@,
        ) + 3,
        r matches Some(st) ==> status_fits(*final(g), st) && (st == Status::AwaitingRelease ==> release_ready(
            *final(g),
        )) && ((st == Status::AwaitingInput || st == Status::AwaitingRelease) ==> (one_mage(*final(g)) ==> mage_next(
            *final(g),
        ))),
        chain_round(
            *old(g),
            old(ctx).mage_hurt,
            old(ctx).events@,
            old(ctx).tiers,
            *final(g),
            final(ctx).mage_hurt,
            final(ctx).events@,
            r,
        ),
{
    let ghost gh = *g;
    let ghost hh = ctx.mage_hurt;
    let ghost eh = ctx.events@;
    let ghost t0 = ctx.tiers;
    proof {
        lemma_first_index(g.entities@, mage_pred());
    }
    let ai = match next_actor_index(g) {
        Some(i) => i,
        None => {
            proof {
                assert(!is_alive(g.entities@[g.mage_index()]));
            }
            return Some(Status::AwaitingInput);
        },
    };
    proof {
        lemma_round_actor(gh.entities@, ai as int);
    }
    if g.entities[ai].kind.is_mage() {
        let ghost ga = *g;
        fire_tick(g, ctx);
        proof {
            crate::terrain::lemma_burn_times(ga.entities@, crate::terrain::lit_list(ga, ga.w * ga.h), ctx.tiers);
            crate::terrain::lemma_burn_hp(ga.entities@, crate::terrain::lit_list(ga, ga.w * ga.h), ctx.tiers);
            lemma_first_index(g.entities@, mage_pred());
            lemma_total_kept(ga.entities@, g.entities@);
            assert(turn_kept(ga.entities@, g.entities@));
            assert(crate::turns::ticked(gh, *g, t0));
        }
        let ghost gt = *g;
        let ghost ht = ctx.mage_hurt;
        let ghost et = ctx.events@;
        match terminal_status(g) {
            Some(s) => {
                proof {
                    assert(mage_turn(gt, ht, et, t0, *g, ht, et, Some(s)));
                    lemma_round_mage(gh, hh, eh, t0, ai as int, gt, *g, ht, et, Some(s));
                }
                return Some(s);
            },
            None => {},
        }
        proof {
            lemma_turn_ok_kept(ga, *g);
        }
        let gb = Ghost(*g);
        let ch_state: Option<bool> = match &g.mage().channel {
            Some(ch) => Some(ch.interrupted),
            None => None,
        };
        match ch_state {
            Some(true) => {
                let m = g.mage_mut();
                m.channel = None;
                proof {
                    lemma_mage_edit(gb@, *g);
                    lemma_turn_ok_kept(gb@, *g);
                    lemma_terminal_kept(gb@, *g);
                    assert(turn_kept(gb@.entities@, g.entities@));
                    lemma_turn_kept_trans(ga.entities@, gb@.entities@, g.entities@);
                    lemma_total_kept(gb@.entities@, g.entities@);
                }
            },
            Some(false) => {
                let m = g.mage_mut();
                match &mut m.channel {
                    Some(ch) => {
                        ch.ready = true;
                    },
                    None => {},
                }
                proof {
                    lemma_mage_edit(gb@, *g);
                    lemma_turn_ok_kept(gb@, *g);
                    lemma_terminal_kept(gb@, *g);
                    assert(turn_kept(gb@.entities@, g.entities@));
                    lemma_turn_kept_trans(ga.entities@, gb@.entities@, g.entities@);
                    lemma_turn_back(ga, *g, ai as int);
                    assert(mage_turn(gt, ht, et, t0, *g, ht, et, Some(Status::AwaitingRelease)));
                    lemma_round_mage(gh, hh, eh, t0, ai as int, gt, *g, ht, et, Some(Status::AwaitingRelease));
                }
                return Some(Status::AwaitingRelease);
            },
            None => {},
        }
        let gc = Ghost(*g);
        proof {
            assert(turn_kept(ga.entities@, gc@.entities@));
            assert(total_time(gc@.entities@) == total_time(ga.entities@));
            assert(crate::turns::charge_dropped(gt, gc@));
        }
        let next: Option<(i32, i32)> = match &g.mage().path {
            Some(p) => if p.len() > 0 {
                Some(p[0])
            } else {
                None
            },
            None => None,
        };
        match next {
            Some(n) => {
                let blocked = walk_brake(g, Some(n), ctx) || !walkable(g, n.0, n.1) || ent_index_at(
                    g,
                    n.0,
                    n.1,
                ).is_some();
                if blocked {
                    let m = g.mage_mut();
                    m.path = None;
                    proof {
                        lemma_mage_edit(gc@, *g);
                        lemma_turn_ok_kept(gc@, *g);
                        lemma_terminal_kept(gc@, *g);
                        assert(turn_kept(gc@.entities@, g.entities@));
                        lemma_turn_kept_trans(ga.entities@, gc@.entities@, g.entities@);
                        assert(crate::turns::walk_turn(gc@, ht, et, t0, *g, ht, et, Some(Status::AwaitingInput)));
                    }
                } else {
                    let m = g.mage_mut();
                    match &mut m.path {
                        Some(p) => {
                            p.remove(0);
                        },
                        None => {},
                    }
                    proof {
                        lemma_mage_edit(gc@, *g);
                        assert(crate::state::times_kept(gc@.entities@, g.entities@));
                        lemma_total_kept(gc@.entities@, g.entities@);
                        assert(crate::turns::walk_popped(gc@, *g, gc@.mage_spec().path->0@));
                    }
                    let gd = Ghost(*g);
                    move_mage_to(g, n.0, n.1, ctx);
                    proof {
                        crate::movement::lemma_mage_move_times(gd@, n.0 as int, n.1 as int, ctx.tiers);
                        lemma_total_kept(gd@.entities@, g.entities@);
                        assert(crate::turns::stepped(gd@, *g, n.0 as int, n.1 as int, t0));
                    }
                    let ge = Ghost(*g);
                    end_mage_turn(g);
                    proof {
                        lemma_within_step(gh.entities@, ge@.entities@, g.entities@, 0, g.mage_index());
                        lemma_total_update(ge@.entities@, ge@.mage_index(), g.entities@[ge@.mage_index()]);
                        assert(g.entities@ == ge@.entities@.update(ge@.mage_index(), g.entities@[ge@.mage_index()]));
                        assert(crate::turns::turn_ended(ge@, *g));
                        assert(crate::turns::walk_turn(gc@, ht, et, t0, *g, ctx.mage_hurt, ctx.events@, terminal_spec(*g)));
                        crate::turns::lemma_mage_turn_walk(gt, gc@, ht, et, t0, *g, ctx.mage_hurt, ctx.events@, terminal_spec(*g));
                        lemma_round_mage(gh, hh, eh, t0, ai as int, gt, *g, ctx.mage_hurt, ctx.events@, terminal_spec(*g));
                    }
                    match terminal_status(g) {
                        Some(s) => {
                            return Some(s);
                        },
                        None => {},
                    }
                    return None;
                }
            },
            None => {
                proof {
                    assert(crate::turns::walk_turn(gc@, ht, et, t0, *g, ht, et, Some(Status::AwaitingInput)));
                }
            },
        }
        proof {
            lemma_turn_back(ga, *g, ai as int);
            crate::turns::lemma_mage_turn_walk(gt, gc@, ht, et, t0, *g, ht, et, Some(Status::AwaitingInput));
            lemma_round_mage(gh, hh, eh, t0, ai as int, gt, *g, ht, et, Some(Status::AwaitingInput));
        }
        return Some(Status::AwaitingInput);
    } else {
        let ghost ga = *g;
        let ghost eva = ctx.events@;
        enemy_act(g, ai, ctx);
        proof {
            crate::ai::lemma_act_times(ga, *g, ai as int, ctx.tiers, eva, ctx.events@);
            crate::ai::lemma_act_spares(ga, *g, ai as int, ctx.tiers, eva, ctx.events@);
            lemma_total_kept(ga.entities@, g.entities@);
        }
        let eff = g.entities[ai].eff_speed_halves();
        let step = crate::config::time_step(eff);
        let gf = Ghost(*g);
        g.entities[ai].time = g.entities[ai].time + step;
        proof {
            crate::ai::lemma_frame_keep(gf@, *g, ai as int);
            lemma_within_step(gh.entities@, gf@.entities@, g.entities@, 0, ai as int);
            lemma_total_update(gf@.entities@, ai as int, g.entities@[ai as int]);
            assert(g.entities@ == gf@.entities@.update(ai as int, g.entities@[ai as int]));
            assert(crate::turns::with_ents(
                gf@,
                *g,
                gf@.entities@.update(
                    ai as int,
                    Entity {
                        time: (gf@.entities@[ai as int].time + crate::config::time_step_spec(
                            crate::state::eff_speed_spec(gf@.entities@[ai as int]),
                        )) as i64,
                        ..gf@.entities@[ai as int]
                    },
                ),
            ));
        }
        if g.mage().hp <= 0 {
            proof {
                lemma_round_enemy(gh, hh, eh, t0, ai as int, *g, ctx.mage_hurt, ctx.events@, Some(Status::Defeat));
            }
            return Some(Status::Defeat);
        }
        proof {
            lemma_terminal_kept(ga, *g);
            lemma_round_enemy(gh, hh, eh, t0, ai as int, *g, ctx.mage_hurt, ctx.events@, None);
        }
        None
    }
}

/// Runs the time chain: enemies act in turn (a fire tick comes before each of the
/// mage's turns) until the mage is to act with nothing pending, its charge is ready
/// for release, or the battle ends; pending auto-walk steps are taken on the way.
/// The chain stops after `CHAIN_GUARD - 1` rounds at the latest.
fn run_chain(g: &mut GameState, ctx: &mut StepCtx) -> (r: Status)
    requires
        turn_ok(*old(g)),
        terminal_spec(*old(g)) is None,
        old(g).time_room(CHAIN_GUARD + 1),
    ensures
        turn_ok(*final(g)),
        final(g).w == old(g).w,
        final(g).h == old(g).h,
        final(g).room_idx == old(g).room_idx,
        final(g).core == old(g).core,
        status_fits(*final(g), r),
        r == Status::AwaitingRelease ==> release_ready(*final(g)),
        times_within(old(g).entities@, final(g).entities@, CHAIN_GUARD as int),
        final(g).mage_index() == old(g).mage_index(),
        (r == Status::AwaitingInput || r == Status::AwaitingRelease) ==> (one_mage(*final(g)) ==> mage_next(
            *final(g),
        )) || total_time(final(g).entities@) >= total_time(old(g).entities@) + 3 * (CHAIN_GUARD - 1),
        r == Status::AwaitingInput ==> crate::turns::mage_free(*final(g)) || total_time(final(g).entities@) >= total_time(
            old(g).entities@,
        ) + 3 * (CHAIN_GUARD - 1),
        final(ctx).tiers == old(ctx).tiers,
        chain_rel(
            *old(g),
            old(ctx).mage_hurt,
            old(ctx).events@,
            old(ctx).tiers,
            *final(g),
            final(ctx).events@,
            r,
            (CHAIN_GUARD - 1) as nat,
        ),
{
    let ghost g0 = *g;
    let ghost h0 = ctx.mage_hurt;
    let ghost e0 = ctx.events@;
    let ghost t0 = ctx.tiers;
    let mut guard: u32 = 0;
    loop
        invariant
            g0 == *old(g),
            h0 == old(ctx).mage_hurt,
            e0 == old(ctx).events@,
            t0 == old(ctx).tiers,
            forall|gf: GameState, ef: Seq<Event>, st: Status|
                #[trigger] chain_rel(*g, ctx.mage_hurt, ctx.events@, t0, gf, ef, st, (CHAIN_GUARD - 1 - guard) as nat)
                    ==> chain_rel(g0, h0, e0, t0, gf, ef, st, (CHAIN_GUARD - 1) as nat),
            turn_ok(*g),
            terminal_spec(*g) is None,
            g.w == g0.w,
            g.h == g0.h,
            g.room_idx == g0.room_idx,
            g.core == g0.core,
            guard < CHAIN_GUARD,
            g0.time_room(CHAIN_GUARD + 1),
            times_within(g0.entities@, g.entities@, guard as int),
            g.mage_index() == g0.mage_index(),
            total_time(g.entities@) >= total_time(g0.entities@) + 3 * guard,
            ctx.tiers == old(ctx).tiers,
        decreases CHAIN_GUARD - guard,
    {
        let ghost gh = *g;
        let ghost hh = ctx.mage_hurt;
        let ghost eh = ctx.events@;
        let ghost kh = (CHAIN_GUARD - 1 - guard) as nat;
        guard = guard + 1;
        if guard >= CHAIN_GUARD {
            proof {
                assert(chain_rel(gh, hh, eh, t0, gh, eh, Status::AwaitingInput, kh));
            }
            return Status::AwaitingInput;
        }
        proof {
            lemma_time_room(g0, *g, guard as int - 1, 1);
        }
        match chain_step(g, ctx) {
            Some(st) => {
                proof {
                    if st == Status::AwaitingInput {
                        lemma_first_index(gh.entities@, mage_pred());
                        let mi = gh.mage_index();
                        assert(0 <= mi < gh.entities@.len() && is_alive(gh.entities@[mi]));
                        crate::turns::law_input_round_frees_mage(gh, hh, eh, t0, *g, ctx.mage_hurt, ctx.events@);
                    }
                    lemma_chain_stop(gh, hh, eh, t0, *g, ctx.mage_hurt, ctx.events@, st, kh);
                    lemma_within_trans(g0.entities@, gh.entities@, g.entities@, guard as int - 1, 1);
                }
                return st;
            },
            None => {
                proof {
                    lemma_chain_more(gh, hh, eh, t0, *g, ctx.mage_hurt, ctx.events@, kh);
                    lemma_within_trans(g0.entities@, gh.entities@, g.entities@, guard as int - 1, 1);
                    assert((CHAIN_GUARD - 1 - guard) as nat == (kh - 1) as nat);
                    assert forall|gf: GameState, ef: Seq<Event>, st: Status|
                        #[trigger] chain_rel(*g, ctx.mage_hurt, ctx.events@, t0, gf, ef, st, (CHAIN_GUARD - 1 - guard) as nat)
                            implies chain_rel(g0, h0, e0, t0, gf, ef, st, (CHAIN_GUARD - 1) as nat) by {
                        assert(chain_rel(gh, hh, eh, t0, gf, ef, st, kh));
                    }
                }
            },
        }
    }
}

proof fn lemma_round_actor(s: Seq<Entity>, ai: int)
    requires
        is_next_actor(s, ai),
    ensures
        (choose|i: int| is_next_actor(s, i)) == ai,
        !(forall|j: int| 0 <= j < s.len() ==> !is_alive(#[trigger] s[j])),
{
    let c = choose|i: int| is_next_actor(s, i);
    crate::time_chain::law_next_actor_unique(s, c, ai);
    assert(is_alive(s[ai]));
}

proof fn lemma_round_mage(
    gh: GameState,
    hh: bool,
    eh: Seq<Event>,
    t: TierTable,
    ai: int,
    gt: GameState,
    g2: GameState,
    h2: bool,
    e2: Seq<Event>,
    stop: Option<Status>,
)
    requires
        is_next_actor(gh.entities@, ai),
        gh.entities@[ai].kind == Kind::Mage,
        crate::turns::ticked(gh, gt, t),
        mage_turn(
            gt,
            hh || burn_all(gh.entities@, lit_list(gh, gh.w * gh.h), t).2,
            eh + burn_all(gh.entities@, lit_list(gh, gh.w * gh.h), t).1,
            t,
            g2,
            h2,
            e2,
            stop,
        ),
    ensures
        chain_round(gh, hh, eh, t, g2, h2, e2, stop),
{
    lemma_round_actor(gh.entities@, ai);
}

proof fn lemma_round_enemy(
    gh: GameState,
    hh: bool,
    eh: Seq<Event>,
    t: TierTable,
    ai: int,
    g2: GameState,
    h2: bool,
    e2: Seq<Event>,
    stop: Option<Status>,
)
    requires
        is_next_actor(gh.entities@, ai),
        gh.entities@[ai].kind != Kind::Mage,
        crate::turns::enemy_turn(gh, ai, hh, eh, t, g2, h2, e2, stop),
    ensures
        chain_round(gh, hh, eh, t, g2, h2, e2, stop),
{
    lemma_round_actor(gh.entities@, ai);
}

/// A round that stops the chain ends it.
proof fn lemma_chain_stop(gh: GameState, hh: bool, eh: Seq<Event>, t: TierTable, g2: GameState, h2: bool, e2: Seq<Event>, st: Status, k: nat)
    requires
        chain_round(gh, hh, eh, t, g2, h2, e2, Some(st)),
        k > 0,
    ensures
        chain_rel(gh, hh, eh, t, g2, e2, st, k),
{
}

/// A round that goes on leads into the rest of the chain.
proof fn lemma_chain_more(gh: GameState, hh: bool, eh: Seq<Event>, t: TierTable, g2: GameState, h2: bool, e2: Seq<Event>, k: nat)
    requires
        chain_round(gh, hh, eh, t, g2, h2, e2, None),
        k > 0,
    ensures
        forall|gf: GameState, ef: Seq<Event>, st: Status|
            #[trigger] chain_rel(g2, h2, e2, t, gf, ef, st, (k - 1) as nat) ==> chain_rel(gh, hh, eh, t, gf, ef, st, k),
{
}

/// What decides `terminal_spec` stays the same (the mage stays alive).
proof fn lemma_terminal_kept(a: GameState, b: GameState)
    requires
        a.has_mage(),
        b.has_mage(),
        b.mage_index() == a.mage_index(),
        b.entities@.len() == a.entities@.len(),
        forall|i: int| 0 <= i < a.entities@.len() ==> (#[trigger] b.entities@[i]).kind == a.entities@[i].kind,
        forall|i: int|
            0 <= i < a.entities@.len() && i != a.mage_index() ==> (#[trigger] b.entities@[i]).hp == a.entities@[i].hp,
        a.mage_spec().hp > 0,
        b.mage_spec().hp > 0,
        b.mage_spec().x == a.mage_spec().x,
        b.mage_spec().y == a.mage_spec().y,
        b.core == a.core,
        b.room_idx == a.room_idx,
    ensures
        terminal_spec(b) == terminal_spec(a),
{
    let mi = a.mage_index();
    lemma_first_index(a.entities@, mage_pred());
    assert forall|i: int| 0 <= i < a.entities@.len() implies crate::state::is_alive_enemy(#[trigger] a.entities@[i])
        == crate::state::is_alive_enemy(b.entities@[i]) by {}
    crate::state::lemma_count_same(a.entities@, b.entities@);
    assert forall|i: int| 0 <= i < a.entities@.len() implies #[trigger] boss_pred()(a.entities@[i]) == boss_pred()(
        b.entities@[i],
    ) by {}
    crate::state::lemma_first_index_same(a.entities@, b.entities@, boss_pred());
    lemma_first_index(a.entities@, boss_pred());
}


proof fn lemma_time_room(a: GameState, b: GameState, n: int, k: int)
    requires
        times_within(a.entities@, b.entities@, n),
        a.time_room(k + n),
        n >= 0,
        k >= 0,
    ensures
        b.time_room(k),
{
    assert forall|i: int| 0 <= i < b.entities@.len() implies (#[trigger] b.entities@[i]).time <= i64::MAX - 12 * k by {
        assert(a.entities@[i].time <= b.entities@[i].time <= a.entities@[i].time + 12 * n);
        assert(a.entities@[i].time <= i64::MAX - 12 * (k + n));
    }
}

/// The mage's charge, if any, is set off (dropped first), and its turn ends.
fn release_channel(g: &mut GameState, ctx: &mut StepCtx)
    requires
        turn_ok(*old(g)),
        old(g).mage_spec().time <= i64::MAX - 12,
    ensures
        turn_ok(*final(g)),
        final(g).w == old(g).w,
        final(g).h == old(g).h,
        final(g).room_idx == old(g).room_idx,
        final(g).core == old(g).core,
        final(g).mage_spec().channel is None,
        times_within(old(g).entities@, final(g).entities@, 1),
        final(g).mage_index() == old(g).mage_index(),
        final(g).mage_spec().time > old(g).mage_spec().time,
        final(ctx).tiers == old(ctx).tiers,
        final(ctx).events@.len() >= old(ctx).events@.len(),
        final(ctx).events@.subrange(0, old(ctx).events@.len() as int) == old(ctx).events@,
        released(
            *old(g),
            old(ctx).tiers,
            old(ctx).mage_hurt,
            *final(g),
            final(ctx).mage_hurt,
            ev_added(old(ctx).events@, final(ctx).events@),
        ),
{
    let ghost g0 = *g;
    let ghost e0 = ctx.events@;
    proof {
        lemma_first_index(g.entities@, mage_pred());
    }
    let target: Option<(i32, i32)> = match &g.mage().channel {
        Some(ch) => Some((ch.tx, ch.ty)),
        None => None,
    };
    match target {
        Some((tx, ty)) => {
            let m = g.mage_mut();
            m.channel = None;
            proof {
                lemma_mage_edit(g0, *g);
            }
            let ghost g1 = *g;
            resolve_heavy(g, tx, ty, ctx);
            proof {
                crate::spells::lemma_heavy_times(g1, *g, tx as int, ty as int, ctx.tiers);
                lemma_first_index(g.entities@, mage_pred());
                assert(g.mage_spec().time == g0.mage_spec().time);
            }
            let ghost g2 = *g;
            end_mage_turn(g);
            proof {
                lemma_turn_ok_kept(g0, *g);
                assert(ctx.events@.subrange(0, e0.len() as int) =~= e0);
                assert(ev_added(e0, ctx.events@) =~= crate::spells::heavy_result(g1, g2, tx as int, ty as int, ctx.tiers).1);
                assert(crate::turns::blasted(g1, g2, tx as int, ty as int, ctx.tiers, ev_added(e0, ctx.events@)));
                lemma_release_done(g0, g1, g2, *g, ctx.tiers, ctx.mage_hurt, ev_added(e0, ctx.events@));
            }
        },
        None => {
            end_mage_turn(g);
            proof {
                lemma_turn_ok_kept(g0, *g);
                assert(ctx.events@.subrange(0, e0.len() as int) =~= e0);
                assert(ev_added(e0, ctx.events@) =~= Seq::<Event>::empty());
            }
        },
    }
}

proof fn lemma_release_done(g0: GameState, g1: GameState, g2: GameState, g3: GameState, t: TierTable, h: bool, e: Seq<Event>)
    requires
        g0.mage_spec().channel is Some,
        crate::turns::with_ents(
            g0,
            g1,
            g0.entities@.update(g0.mage_index(), Entity { channel: None, ..g0.mage_spec() }),
        ),
        crate::turns::blasted(
            g1,
            g2,
            g0.mage_spec().channel->0.tx as int,
            g0.mage_spec().channel->0.ty as int,
            t,
            e,
        ),
        crate::turns::turn_ended(g2, g3),
    ensures
        released(g0, t, h, g3, h, e),
{
    let ch = g0.mage_spec().channel->0;
    let m = g0.mage_spec();
    let mi = g0.mage_index();
    assert(exists|ga: GameState, gb: GameState|
        #[trigger] crate::turns::with_ents(g0, ga, g0.entities@.update(mi, Entity { channel: None, ..m })) && #[trigger] crate::turns::blasted(ga, gb, ch.tx as int, ch.ty as int, t, e) && crate::turns::turn_ended(
            gb,
            g3,
        ));
}

/// What `step` does from battle `g0` and run `run0` on action `a`: the battle `g1`, run
/// `run1`, events `ev`, status and refusal it gives (see `step`).
pub open spec fn step_post(
    g0: GameState,
    run0: RunState,
    a: Action,
    g1: GameState,
    run1: RunState,
    ev: Seq<Event>,
    status: Status,
    rejected: Option<Reject>,
) -> bool {
    &&& g1.w == g0.w
    &&& g1.h == g0.h
    &&& g1.room_idx == g0.room_idx
    &&& g1.core == g0.core
    &&& run1.run_seed == run0.run_seed
    &&& run1.acquired == run0.acquired
    &&& run1.tiers == run0.tiers
    &&& run1.room_idx == run0.room_idx
    &&& run1.op_log == run0.op_log
    &&& charge_ready(g0) ==> rejected is None
    &&& !charge_ready(g0) ==> (action_reject(g0, run0, a) matches Some(e) ==> rejected == Some(e))
    &&& rejected matches Some(e) ==> !charge_ready(g0) && Some(e) == action_reject(g0, run0, a)
    &&& rejected is Some ==> g1 == g0 && run1.potions == run0.potions && status
        == Status::AwaitingInput && ev.len() == 0
    &&& rejected is None ==> {
        &&& turn_ok(g1)
        &&& status_fits(g1, status)
        &&& status == Status::AwaitingRelease ==> release_ready(g1)
        &&& times_within(g0.entities@, g1.entities@, CHAIN_GUARD + 1)
        &&& g1.mage_index() == g0.mage_index()
        &&& g1.mage_spec().time > g0.mage_spec().time
        &&& (status == Status::AwaitingInput || status == Status::AwaitingRelease) ==> (one_mage(g1)
            ==> mage_next(g1)) || total_time(g1.entities@) >= total_time(g0.entities@) + 3 * (
        CHAIN_GUARD - 1)
        &&& run1.potions == if !charge_ready(g0) && a is Potion {
            (run0.potions - 1) as u32
        } else {
            run0.potions
        }
        &&& exists|gm: GameState, hm: bool, em: Seq<Event>|
            #[trigger] opening(g0, a, run0.tiers, gm, hm, em) && closing(gm, hm, em, run0.tiers, g1, ev, status)
    }
}

/// One player turn, the core contract: with a charge ready for release any action
/// releases it; otherwise the action is applied (an illegal one changes nothing and is
/// reported with its reason, with no time passing). Then, unless the battle ended, the
/// time chain runs until the mage is to act again: an accepted step always moves the
/// mage's clock forward, and hands control back only on the mage's turn (with a single
/// mage), unless the chain guard stopped a runaway chain. Spell tiers come from the run;
/// the run changes only by a drunk potion. What an accepted step does is traced by
/// `opening` (the release or the action) and `closing` (the time chain, round by round).
/// The step is a function of its inputs (see `determinism::law_step_deterministic`).
#[verifier::rlimit(50)]
pub fn step(g: &mut GameState, run: &mut RunState, action: Action) -> (r: StepResult)
    requires
        turn_ok(*old(g)),
        old(g).time_room(CHAIN_GUARD + 2),
    ensures
        step_post(*old(g), *old(run), action, *final(g), *final(run), r.events@, r.status, r.rejected),
{
    let ghost g0 = *g;
    let mut ctx = StepCtx::new();
    ctx.tiers = run.tiers;
    proof {
        lemma_first_index(g.entities@, mage_pred());
        assert(g.mage_spec().time <= i64::MAX - 12 * (CHAIN_GUARD + 2));
    }
    let ready = match &g.mage().channel {
        Some(c) => c.ready,
        None => false,
    };
    if ready {
        release_channel(g, &mut ctx);
    } else {
        match apply_action(g, run, action, &mut ctx) {
            Err(e) => {
                return StepResult { events: ctx.events, status: Status::AwaitingInput, rejected: Some(e) };
            },
            Ok(()) => {},
        }
    }
    let ghost g1 = *g;
    let ghost h1 = ctx.mage_hurt;
    let ghost e1 = ctx.events@;
    proof {
        assert(ev_added(Seq::<Event>::empty(), e1) =~= e1);
        assert(opening(g0, action, run.tiers, g1, h1, e1));
    }
    let status = match terminal_status(g) {
        Some(s) => s,
        None => {
            proof {
                lemma_time_room(g0, g1, 1, CHAIN_GUARD + 1);
                lemma_total_within(g0.entities@, g1.entities@, 1);
            }
            run_chain(g, &mut ctx)
        },
    };
    proof {
        assert(closing(g1, h1, e1, run.tiers, *g, ctx.events@, status));
        lemma_step_trace(g0, action, run.tiers, g1, h1, e1, *g, ctx.events@, status);
    }
    StepResult { events: ctx.events, status, rejected: None }
}

/// The first part of an accepted step from `g`, with a fresh hurt flag: the release of a
/// ready charge (see `released`), else the player's action (see `acted`); it ends in
/// `g1` with hurt flag `h1` and events `e1`.
pub open spec fn opening(g: GameState, a: Action, t: TierTable, g1: GameState, h1: bool, e1: Seq<Event>) -> bool {
    if charge_ready(g) {
        released(g, t, false, g1, h1, e1)
    } else {
        acted(g, a, t, false, g1, h1, e1)
    }
}

/// The rest of a step after its opening left `g1`: a finished battle ends the step there
/// with its status; otherwise the time chain runs (see `chain_rel`) and ends in `gf`
/// with events `ef` and status `st`.
pub open spec fn closing(g1: GameState, h1: bool, e1: Seq<Event>, t: TierTable, gf: GameState, ef: Seq<Event>, st: Status) -> bool {
    match terminal_spec(g1) {
        Some(s) => gf == g1 && ef == e1 && st == s,
        None => chain_rel(g1, h1, e1, t, gf, ef, st, (CHAIN_GUARD - 1) as nat),
    }
}

/// Drinking a potion heals the mage by `POTION_HEAL`, never past its maximum: right
/// after the drink, before anything else acts, the mage's hit points rise by
/// `min(POTION_HEAL, maxhp - hp)`, and the step's first event reports that amount.
pub proof fn law_potion_heals(g0: GameState, run0: RunState, g1: GameState, run1: RunState, ev: Seq<Event>, st: Status)
    requires
        turn_ok(g0),
        !charge_ready(g0),
        step_post(g0, run0, Action::Potion, g1, run1, ev, st, None),
    ensures
        ({
            let m = g0.mage_spec();
            let heal: int = if POTION_HEAL <= m.maxhp - m.hp {
                POTION_HEAL as int
            } else {
                m.maxhp - m.hp
            };
            &&& ev.len() >= 1
            &&& ev[0] == Event::Healed { id: m.id, amt: heal as i32 }
            &&& exists|gm: GameState, hm: bool, em: Seq<Event>|
                #[trigger] opening(g0, Action::Potion, run0.tiers, gm, hm, em) && closing(gm, hm, em, run0.tiers, g1, ev, st)
                    && gm.entities@[g0.mage_index()].hp == m.hp + heal && em == seq![Event::Healed { id: m.id, amt: heal as i32 }]
        }),
{
    let m = g0.mage_spec();
    let mi = g0.mage_index();
    lemma_first_index(g0.entities@, mage_pred());
    let (gm, hm, em) = choose|gm: GameState, hm: bool, em: Seq<Event>|
        #[trigger] opening(g0, Action::Potion, run0.tiers, gm, hm, em) && closing(gm, hm, em, run0.tiers, g1, ev, st);
    assert(acted(g0, Action::Potion, run0.tiers, false, gm, hm, em));
    assert(crate::state::ent_ok(m));
    match terminal_spec(gm) {
        Some(x) => {},
        None => {
            crate::turns::lemma_chain_opens(gm, hm, em, run0.tiers, g1, ev, st, (CHAIN_GUARD - 1) as nat);
        },
    }
    assert(ev[0] == em[0]);
}

proof fn lemma_step_trace(
    g0: GameState,
    a: Action,
    t: TierTable,
    g1: GameState,
    h1: bool,
    e1: Seq<Event>,
    gf: GameState,
    ef: Seq<Event>,
    st: Status,
)
    requires
        opening(g0, a, t, g1, h1, e1),
        closing(g1, h1, e1, t, gf, ef, st),
    ensures
        exists|g: GameState, h: bool, e: Seq<Event>| #[trigger] opening(g0, a, t, g, h, e) && closing(g, h, e, t, gf, ef, st),
{
}

/// A participant of the projected turn order.
#[derive(Clone, Copy, Debug, PartialEq, Eq, Structural)]
pub struct ProjEntry {
    pub kind: Kind,
    pub id: u32,
    pub time: i64,
    pub speed_halves: u8,
    pub haste: u32,
    pub channel: bool,
}

/// The participant made from an alive entity.
pub open spec fn proj_entry(e: Entity) -> ProjEntry {
    ProjEntry {
        kind: e.kind,
        id: e.id,
        time: e.time,
        speed_halves: e.speed_halves,
        haste: if e.kind == Kind::Mage {
            e.haste_turns
        } else {
            0
        },
        channel: e.kind == Kind::Mage && e.channel is Some,
    }
}

/// The alive entities as participants, in entity order.
pub open spec fn proj_init(s: Seq<Entity>) -> Seq<ProjEntry>
    decreases s.len(),
{
    if s.len() == 0 {
        Seq::empty()
    } else if is_alive(s.last()) {
        proj_init(s.drop_last()).push(proj_entry(s.last()))
    } else {
        proj_init(s.drop_last())
    }
}

/// `a` acts before `b`: earlier time, then the mage, then the lower id.
pub open spec fn proj_lt(a: ProjEntry, b: ProjEntry) -> bool {
    a.time < b.time || (a.time == b.time && ((a.kind == Kind::Mage && b.kind != Kind::Mage) || ((a.kind
        == Kind::Mage) == (b.kind == Kind::Mage) && a.id < b.id)))
}

/// Where `x` goes into the ordered `t[..p]`: after every participant not after it.
pub open spec fn ins_pos(t: Seq<ProjEntry>, x: ProjEntry, p: int) -> int
    decreases p,
{
    if p <= 0 {
        0
    } else if proj_lt(x, t[p - 1]) {
        ins_pos(t, x, p - 1)
    } else {
        p
    }
}

/// The participants ordered by `proj_lt`, equal keys keeping their order (a stable
/// insertion sort).
pub open spec fn isort(s: Seq<ProjEntry>) -> Seq<ProjEntry>
    decreases s.len(),
{
    if s.len() == 0 {
        s
    } else {
        let t = isort(s.drop_last());
        t.insert(ins_pos(t, s.last(), t.len() as int), s.last())
    }
}

proof fn lemma_ins_pos(t: Seq<ProjEntry>, x: ProjEntry, p: int)
    requires
        0 <= p <= t.len(),
    ensures
        0 <= ins_pos(t, x, p) <= p,
    decreases p,
{
    if p > 0 {
        lemma_ins_pos(t, x, p - 1);
    }
}

/// Sorting keeps the participants.
pub(crate) proof fn lemma_isort(s: Seq<ProjEntry>)
    ensures
        isort(s).len() == s.len(),
        forall|k: int| 0 <= k < isort(s).len() ==> s.contains(#[trigger] isort(s)[k]),
    decreases s.len(),
{
    if s.len() > 0 {
        let q = s.drop_last();
        lemma_isort(q);
        let t = isort(q);
        let p = ins_pos(t, s.last(), t.len() as int);
        lemma_ins_pos(t, s.last(), t.len() as int);
        assert forall|k: int| 0 <= k < isort(s).len() implies s.contains(#[trigger] isort(s)[k]) by {
            if k < p {
                assert(isort(s)[k] == t[k]);
                let j = choose|j: int| 0 <= j < q.len() && q[j] == t[k];
                assert(s[j] == q[j]);
            } else if k == p {
                assert(s[s.len() - 1] == s.last());
            } else {
                assert(isort(s)[k] == t[k - 1]);
                let j = choose|j: int| 0 <= j < q.len() && q[j] == t[k - 1];
                assert(s[j] == q[j]);
            }
        }
    }
}

/// A participant after acting: one step of its (hasted) speed, one hasted turn spent.
pub open spec fn proj_advance(a: ProjEntry) -> ProjEntry {
    let eff = if a.kind == Kind::Mage && a.haste > 0 {
        crate::config::SPEED_HALVES_HASTE
    } else {
        a.speed_halves
    };
    ProjEntry {
        time: (a.time + crate::config::time_step_spec(eff)) as i64,
        haste: if a.kind == Kind::Mage && a.haste > 0 {
            (a.haste - 1) as u32
        } else {
            a.haste
        },
        ..a
    }
}

/// The next `n` slots of the turn order; only the first of the mage's slots while it
/// charges is its release.
pub open spec fn proj_slots(s: Seq<ProjEntry>, n: nat, first_mage: bool) -> Seq<ChainSlot>
    decreases n,
{
    if n == 0 || s.len() == 0 {
        Seq::empty()
    } else {
        let t = isort(s);
        let a = t[0];
        let releasing = a.kind == Kind::Mage && a.channel && first_mage;
        seq![ChainSlot { kind: a.kind, id: a.id, releasing }] + proj_slots(
            t.update(0, proj_advance(a)),
            (n - 1) as nat,
            first_mage && !releasing,
        )
    }
}

proof fn lemma_proj_lt_order(a: ProjEntry, b: ProjEntry, c: ProjEntry)
    ensures
        !proj_lt(a, a),
        proj_lt(a, b) ==> !proj_lt(b, a),
        !proj_lt(a, b) ==> proj_lt(b, a) || (a.time == b.time && (a.kind == Kind::Mage) == (b.kind == Kind::Mage)
            && a.id == b.id),
        proj_lt(a, b) && !proj_lt(c, b) ==> proj_lt(a, c),
{
}

/// The participant `ins_pos` stops after is not after the inserted one.
proof fn lemma_ins_pos_stop(t: Seq<ProjEntry>, x: ProjEntry, p: int)
    requires
        0 <= p <= t.len(),
    ensures
        ins_pos(t, x, p) > 0 ==> !proj_lt(x, t[ins_pos(t, x, p) - 1]),
        ins_pos(t, x, p) == 0 ==> forall|k: int| 0 <= k < p ==> proj_lt(x, #[trigger] t[k]),
    decreases p,
{
    if p > 0 {
        lemma_ins_pos_stop(t, x, p - 1);
        if proj_lt(x, t[p - 1]) && ins_pos(t, x, p - 1) == 0 {
            assert forall|k: int| 0 <= k < p implies proj_lt(x, #[trigger] t[k]) by {
                if k < p - 1 {
                    assert(proj_lt(x, t[k]));
                }
            }
        }
    }
}

/// The first participant after sorting comes from the list and nothing in the list
/// acts before it.
proof fn lemma_isort_first(s: Seq<ProjEntry>)
    requires
        s.len() > 0,
    ensures
        s.contains(isort(s)[0]),
        forall|k: int| 0 <= k < s.len() ==> !proj_lt(#[trigger] s[k], isort(s)[0]),
    decreases s.len(),
{
    lemma_isort(s);
    let q = s.drop_last();
    let x = s.last();
    let t = isort(q);
    lemma_isort(q);
    lemma_ins_pos(t, x, t.len() as int);
    lemma_ins_pos_stop(t, x, t.len() as int);
    let p = ins_pos(t, x, t.len() as int);
    assert(s[s.len() - 1] == x);
    if q.len() == 0 {
        lemma_proj_lt_order(x, x, x);
        assert(isort(s)[0] == x);
    } else {
        lemma_isort_first(q);
        if p == 0 {
            assert(isort(s)[0] == x);
            assert forall|k: int| 0 <= k < s.len() implies !proj_lt(#[trigger] s[k], isort(s)[0]) by {
                lemma_proj_lt_order(s[k], x, x);
                if k < s.len() - 1 {
                    assert(s[k] == q[k]);
                    assert(isort(q).contains(q[k])) by {
                        lemma_isort_has(q, k);
                    }
                    let j = choose|j: int| 0 <= j < t.len() && t[j] == q[k];
                    assert(proj_lt(x, t[j]));
                    lemma_proj_lt_order(x, s[k], x);
                }
            }
        } else {
            assert(isort(s)[0] == t[0]);
            assert(q.contains(t[0]));
            let j0 = choose|j: int| 0 <= j < q.len() && q[j] == t[0];
            assert(s[j0] == q[j0]);
            assert(!proj_lt(x, t[0])) by {
                assert(t.len() > 0);
                let m = p - 1;
                assert(q.contains(t[m]));
                let jm = choose|j: int| 0 <= j < q.len() && q[j] == t[m];
                assert(!proj_lt(q[jm], t[0]));
                lemma_proj_lt_order(x, t[0], t[m]);
                lemma_proj_lt_order(t[m], t[0], t[0]);
                lemma_proj_lt_order(t[0], t[m], x);
            }
            assert forall|k: int| 0 <= k < s.len() implies !proj_lt(#[trigger] s[k], isort(s)[0]) by {
                if k < s.len() - 1 {
                    assert(s[k] == q[k]);
                }
            }
        }
    }
}

/// Every participant of the list is somewhere in its sorted order.
proof fn lemma_isort_has(s: Seq<ProjEntry>, k: int)
    requires
        0 <= k < s.len(),
    ensures
        isort(s).contains(s[k]),
    decreases s.len(),
{
    let q = s.drop_last();
    let x = s.last();
    let t = isort(q);
    lemma_isort(q);
    lemma_ins_pos(t, x, t.len() as int);
    let p = ins_pos(t, x, t.len() as int);
    if k == s.len() - 1 {
        assert(isort(s)[p] == x);
    } else {
        lemma_isort_has(q, k);
        assert(s[k] == q[k]);
        let j = choose|j: int| 0 <= j < t.len() && t[j] == q[k];
        if j < p {
            assert(isort(s)[j] == t[j]);
        } else {
            assert(isort(s)[j + 1] == t[j]);
        }
    }
}

/// The participants are exactly the alive entities.
pub(crate) proof fn lemma_proj_init(s: Seq<Entity>)
    ensures
        forall|k: int|
            0 <= k < proj_init(s).len() ==> exists|j: int|
                0 <= j < s.len() && is_alive(s[j]) && #[trigger] proj_init(s)[k] == proj_entry(s[j]),
        forall|j: int| 0 <= j < s.len() && is_alive(#[trigger] s[j]) ==> proj_init(s).contains(proj_entry(s[j])),
    decreases s.len(),
{
    if s.len() > 0 {
        let q = s.drop_last();
        lemma_proj_init(q);
        assert forall|k: int| 0 <= k < proj_init(s).len() implies exists|j: int|
            0 <= j < s.len() && is_alive(s[j]) && #[trigger] proj_init(s)[k] == proj_entry(s[j]) by {
            if k < proj_init(q).len() {
                let j = choose|j: int| 0 <= j < q.len() && is_alive(q[j]) && proj_init(q)[k] == proj_entry(q[j]);
                assert(s[j] == q[j]);
            } else {
                assert(s[s.len() - 1] == s.last());
            }
        }
        assert forall|j: int| 0 <= j < s.len() && is_alive(#[trigger] s[j]) implies proj_init(s).contains(
            proj_entry(s[j]),
        ) by {
            if j < s.len() - 1 {
                assert(s[j] == q[j]);
                let k = choose|k: int| 0 <= k < proj_init(q).len() && proj_init(q)[k] == proj_entry(q[j]);
                assert(proj_init(s)[k] == proj_init(q)[k]);
            } else {
                assert(proj_init(s)[proj_init(s).len() - 1] == proj_entry(s.last()));
            }
        }
    }
}

/// The projected turn order starts with the very actor the time chain runs next
/// (entities carry distinct ids, as in every valid state).
pub proof fn law_projection_starts_with_next_actor(s: Seq<Entity>, i: int, n: nat)
    requires
        n >= 1,
        is_next_actor(s, i),
        forall|a: int, b: int| 0 <= a < b < s.len() ==> #[trigger] s[a].id != #[trigger] s[b].id,
    ensures
        proj_slots(proj_init(s), n, true).len() >= 1,
        proj_slots(proj_init(s), n, true)[0].id == s[i].id,
        proj_slots(proj_init(s), n, true)[0].kind == s[i].kind,
{
    let t = proj_init(s);
    lemma_proj_init(s);
    assert(t.contains(proj_entry(s[i])));
    lemma_isort_first(t);
    let f = isort(t)[0];
    let kf = choose|k: int| 0 <= k < t.len() && t[k] == f;
    let jf = choose|jj: int| 0 <= jj < s.len() && is_alive(s[jj]) && #[trigger] t[kf] == proj_entry(s[jj]);
    let ki = choose|k: int| 0 <= k < t.len() && t[k] == proj_entry(s[i]);
    assert(!proj_lt(t[ki], f));
    assert(!key_lt(s[jf], s[i]));
    lemma_proj_lt_order(proj_entry(s[i]), f, f);
    if jf != i {
        if jf < i {
            assert(s[jf].id != s[i].id);
        } else {
            assert(s[i].id != s[jf].id);
        }
    }
}

/// Stable insertion sort of the participants by `proj_lt`.
fn sort_entries(s: &Vec<ProjEntry>) -> (r: Vec<ProjEntry>)
    ensures
        r@ == isort(s@),
{
    let mut out: Vec<ProjEntry> = Vec::new();
    let mut i: usize = 0;
    while i < s.len()
        invariant
            i <= s@.len(),
            out@ == isort(s@.take(i as int)),
        decreases s@.len() - i,
    {
        let x = s[i];
        proof {
            assert(s@.take(i as int + 1).drop_last() =~= s@.take(i as int));
            lemma_isort(s@.take(i as int));
        }
        let mut p: usize = out.len();
        while p > 0 && (x.time < out[p - 1].time || (x.time == out[p - 1].time && ((x.kind.is_mage()
            && !out[p - 1].kind.is_mage()) || (x.kind.is_mage() == out[p - 1].kind.is_mage() && x.id < out[p
            - 1].id))))
            invariant
                p <= out@.len(),
                ins_pos(out@, x, out@.len() as int) == ins_pos(out@, x, p as int),
            decreases p,
        {
            p = p - 1;
        }
        proof {
            assert(ins_pos(out@, x, p as int) == p);
        }
        out.insert(p, x);
        i = i + 1;
    }
    proof {
        assert(s@.take(i as int) =~= s@);
    }
    out
}

/// Read-only projection of the next `n` turns: the alive entities act in order of
/// (time, mage first, id; equal keys keep entity order), each advancing by its speed (a hasted mage at haste speed,
/// spending one hasted turn); a charging mage's first slot is its release.
pub fn project_chain(g: &GameState, n: usize) -> (r: Vec<ChainSlot>)
    requires
        g.time_room(n as int),
    ensures
        r@ == proj_slots(proj_init(g.entities@), n as nat, true),
{
    let mut sim: Vec<ProjEntry> = Vec::new();
    let mut i: usize = 0;
    while i < g.entities.len()
        invariant
            i <= g.entities@.len(),
            sim@ == proj_init(g.entities@.take(i as int)),
            g.time_room(n as int),
            forall|k: int| 0 <= k < sim@.len() ==> (#[trigger] sim@[k]).time <= i64::MAX - 12 * n,
        decreases g.entities@.len() - i,
    {
        proof {
            assert(g.entities@.take(i as int + 1).drop_last() =~= g.entities@.take(i as int));
        }
        let e = &g.entities[i];
        if e.alive() {
            let is_m = e.kind.is_mage();
            sim.push(
                ProjEntry {
                    kind: e.kind,
                    id: e.id,
                    time: e.time,
                    speed_halves: e.speed_halves,
                    haste: if is_m {
                        e.haste_turns
                    } else {
                        0
                    },
                    channel: is_m && e.channel.is_some(),
                },
            );
        }
        i = i + 1;
    }
    proof {
        assert(g.entities@.take(i as int) =~= g.entities@);
    }
    let ghost s0 = sim@;
    let mut out: Vec<ChainSlot> = Vec::new();
    let mut first_mage = true;
    let mut round: usize = 0;
    while round < n && sim.len() > 0
        invariant
            round <= n,
            out@ + proj_slots(sim@, (n - round) as nat, first_mage) == proj_slots(s0, n as nat, true),
            forall|q: int| 0 <= q < sim@.len() ==> (#[trigger] sim@[q]).time <= i64::MAX - 12 * (n - round),
        decreases n - round,
    {
        let sorted = sort_entries(&sim);
        proof {
            lemma_isort(sim@);
            assert forall|q: int| 0 <= q < sorted@.len() implies (#[trigger] sorted@[q]).time <= i64::MAX - 12 * (n
                - round) by {
                let j = choose|j: int| 0 <= j < sim@.len() && sim@[j] == sorted@[q];
            }
        }
        sim = sorted;
        let a = sim[0];
        let releasing = a.kind.is_mage() && a.channel && first_mage;
        if releasing {
            first_mage = false;
        }
        let ghost ob = out@;
        out.push(ChainSlot { kind: a.kind, id: a.id, releasing });
        let hasted = a.kind.is_mage() && a.haste > 0;
        let eff = if hasted {
            crate::config::SPEED_HALVES_HASTE
        } else {
            a.speed_halves
        };
        let na = ProjEntry {
            time: a.time + crate::config::time_step(eff),
            haste: if hasted {
                a.haste - 1
            } else {
                a.haste
            },
            ..a
        };
        let ghost sb = sim@;
        sim.set(0, na);
        proof {
            assert(out@ =~= ob + seq![ChainSlot { kind: a.kind, id: a.id, releasing }]);
        }
        round = round + 1;
    }
    out
}

} // verus!
