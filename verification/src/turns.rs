//! What one round of the time chain does, as relations between the state before and
//! after it: a fire tick and the mage's turn, or one enemy's turn.
use crate::ai::{act_post, strikes_mage};
use crate::config::time_step_spec;
use crate::damage::TierTable;
use crate::events::{Event, Status};
use crate::grid::walkable_spec;
use crate::movement::{adj_enemy, mage_move_board, mage_move_ents, mage_move_events};
use crate::config::POTION_HEAL;
use crate::movement::astar_path;
use crate::roguelite::RunState;
use crate::spells::{cast_post, fresh_channel, heavy_result, in_plus, is_cast_event, is_channel_spec, kept_frame, same_board, Spell, Target};
use crate::Action;
use crate::state::{eff_speed_spec, is_alive, Channel, Entity, GameState, Kind, Tile};
use crate::terrain::{blast_step, burn_all, cell_of, lit_list, tick_cell};
use crate::time_chain::{advanced, is_next_actor};
use crate::terminal_spec;
use vstd::prelude::*;

verus! {

/// `b` is `a` holding the entities `s`: same board, room and core cell.
pub open spec fn with_ents(a: GameState, b: GameState, s: Seq<Entity>) -> bool {
    &&& same_board(a, b)
    &&& b.room_idx == a.room_idx
    &&& b.core == a.core
    &&& b.entities@ == s
}

/// `b` is `a` after one fire tick (see `fire_tick`): every cell ticks, and the units on
/// burning cells take their burn.
pub open spec fn ticked(a: GameState, b: GameState, t: TierTable) -> bool {
    &&& b.wf()
    &&& b.w == a.w
    &&& b.h == a.h
    &&& b.room_idx == a.room_idx
    &&& b.core == a.core
    &&& forall|x: int, y: int| a.inb(x, y) ==> #[trigger] cell_of(b, x, y) == tick_cell(a, x, y)
    &&& b.entities@ == burn_all(a.entities@, lit_list(a, a.w * a.h), t).0
}

/// `b` is `a` after the mage's turn ended (see `end_mage_turn`).
pub open spec fn turn_ended(a: GameState, b: GameState) -> bool {
    with_ents(a, b, a.entities@.update(a.mage_index(), advanced(a.mage_spec())))
}

/// `b` is `a` with the first cell of the mage's walk `p` taken off.
pub open spec fn walk_popped(a: GameState, b: GameState, p: Seq<(i32, i32)>) -> bool {
    let mi = a.mage_index();
    let m = a.mage_spec();
    &&& same_board(a, b)
    &&& b.room_idx == a.room_idx
    &&& b.core == a.core
    &&& b.entities@.len() == a.entities@.len()
    &&& forall|i: int| 0 <= i < a.entities@.len() && i != mi ==> #[trigger] b.entities@[i] == a.entities@[i]
    &&& b.entities@[mi] == (Entity { path: b.entities@[mi].path, ..m })
    &&& b.entities@[mi].path matches Some(v) && v@ == p.drop_first()
}

/// `b` is `a` after the mage stepped onto `(x, y)` (see `move_mage_to`).
pub open spec fn stepped(a: GameState, b: GameState, x: int, y: int, t: TierTable) -> bool {
    &&& b.entities@ == mage_move_ents(a, x, y, t)
    &&& mage_move_board(a, b, x, y)
}

/// The mage is hurt by stepping onto `(x, y)`: a spike or a fire there.
pub open spec fn step_hurts(a: GameState, x: int, y: int) -> bool {
    a.tile(x, y) == Tile::Spike || a.fire_at(x, y) > 0
}

/// The mage's auto-walk on its turn, from `g` (after the fire tick and the charge
/// check), with `h` and `e` the hurt flag and events so far. A walk that is braked
/// (the mage was hurt this step, or an alive enemy is next to the mage or to the next
/// cell) or blocked (the next cell is not walkable or holds a unit) is dropped and
/// control returns; otherwise the mage takes the next cell, its turn ends, and the chain
/// goes on unless the battle ended. With no walk pending control returns.
pub open spec fn walk_turn(
    g: GameState,
    h: bool,
    e: Seq<Event>,
    t: TierTable,
    g2: GameState,
    h2: bool,
    e2: Seq<Event>,
    stop: Option<Status>,
) -> bool {
    let mi = g.mage_index();
    let m = g.mage_spec();
    let s = g.entities@;
    match m.path {
        Some(p) => if p@.len() == 0 {
            returns_control(g, h, e, g2, h2, e2, stop)
        } else {
        let n = p@[0];
        let (nx, ny) = (n.0 as int, n.1 as int);
        if h || adj_enemy(s, m.x as int, m.y as int) || adj_enemy(s, nx, ny) || !walkable_spec(g, nx, ny) || g.ent_at(
            nx,
            ny,
        ) is Some {
            &&& with_ents(g, g2, s.update(mi, Entity { path: None, ..m }))
            &&& h2 == h
            &&& e2 == e
            &&& stop == Some(Status::AwaitingInput)
        } else {
            exists|gc: GameState, gd: GameState|
                #[trigger] walk_popped(g, gc, p@) && #[trigger] stepped(gc, gd, nx, ny, t) && turn_ended(gd, g2) && h2
                    == (h || step_hurts(gc, nx, ny)) && e2 == e + mage_move_events(gc, nx, ny, t) && stop
                    == terminal_spec(g2)
        }
        },
        None => returns_control(g, h, e, g2, h2, e2, stop),
    }
}

/// Nothing changes and control returns to the player.
pub open spec fn returns_control(
    g: GameState,
    h: bool,
    e: Seq<Event>,
    g2: GameState,
    h2: bool,
    e2: Seq<Event>,
    stop: Option<Status>,
) -> bool {
    &&& g2 == g
    &&& h2 == h
    &&& e2 == e
    &&& stop == Some(Status::AwaitingInput)
}

/// The mage's turn in the chain, after the fire tick left `g`: a finished battle stops
/// the chain; an interrupted charge is dropped and the walk goes on; a charge that
/// survived its wind-up becomes ready and the chain stops for its release; with no
/// charge the walk goes on.
pub open spec fn mage_turn(
    g: GameState,
    h: bool,
    e: Seq<Event>,
    t: TierTable,
    g2: GameState,
    h2: bool,
    e2: Seq<Event>,
    stop: Option<Status>,
) -> bool {
    let mi = g.mage_index();
    let m = g.mage_spec();
    match terminal_spec(g) {
        Some(st) => g2 == g && h2 == h && e2 == e && stop == Some(st),
        None => match m.channel {
            Some(ch) => if ch.interrupted {
                exists|gb: GameState|
                    #[trigger] with_ents(g, gb, g.entities@.update(mi, Entity { channel: None, ..m })) && walk_turn(
                        gb,
                        h,
                        e,
                        t,
                        g2,
                        h2,
                        e2,
                        stop,
                    )
            } else {
                &&& with_ents(
                    g,
                    g2,
                    g.entities@.update(mi, Entity { channel: Some(Channel { ready: true, ..ch }), ..m }),
                )
                &&& h2 == h
                &&& e2 == e
                &&& stop == Some(Status::AwaitingRelease)
            },
            None => walk_turn(g, h, e, t, g2, h2, e2, stop),
        },
    }
}

/// The turn of enemy `i` in the chain (see `enemy_act`), after which its clock moves
/// on by one step of its speed; the chain stops when the mage fell.
pub open spec fn enemy_turn(
    g: GameState,
    i: int,
    h: bool,
    e: Seq<Event>,
    t: TierTable,
    g2: GameState,
    h2: bool,
    e2: Seq<Event>,
    stop: Option<Status>,
) -> bool {
    exists|ga: GameState|
        #[trigger] act_post(g, ga, i, t, e, e2) && same_board(g, ga) && ga.room_idx == g.room_idx && ga.core == g.core
            && with_ents(
            ga,
            g2,
            ga.entities@.update(
                i,
                Entity {
                    time: (ga.entities@[i].time + time_step_spec(eff_speed_spec(ga.entities@[i]))) as i64,
                    ..ga.entities@[i]
                },
            ),
        ) && h2 == (h || strikes_mage(g, i)) && stop == if g2.mage_spec().hp <= 0 {
            Some(Status::Defeat)
        } else {
            None
        }
}

/// `b` is `a` after the mage's charge check on a turn that goes on to the walk: an
/// interrupted charge is dropped; with no charge nothing changes.
pub open spec fn charge_dropped(a: GameState, b: GameState) -> bool {
    let m = a.mage_spec();
    match m.channel {
        Some(ch) => ch.interrupted && with_ents(a, b, a.entities@.update(a.mage_index(), Entity { channel: None, ..m })),
        None => b == a,
    }
}

/// The walk after the charge check is the mage's turn.
pub proof fn lemma_mage_turn_walk(
    g: GameState,
    gw: GameState,
    h: bool,
    e: Seq<Event>,
    t: TierTable,
    g2: GameState,
    h2: bool,
    e2: Seq<Event>,
    stop: Option<Status>,
)
    requires
        terminal_spec(g) is None,
        charge_dropped(g, gw),
        walk_turn(gw, h, e, t, g2, h2, e2, stop),
    ensures
        mage_turn(g, h, e, t, g2, h2, e2, stop),
{
}

/// One round of the time chain from `g` (hurt flag `h`, events `e`): with nobody alive
/// control returns; otherwise the next actor (see `is_next_actor`) acts: on the mage's
/// turn a fire tick comes first (see `mage_turn`), else the enemy acts (see
/// `enemy_turn`). `stop` tells the status when the chain stops after this round.
pub open spec fn chain_round(
    g: GameState,
    h: bool,
    e: Seq<Event>,
    t: TierTable,
    g2: GameState,
    h2: bool,
    e2: Seq<Event>,
    stop: Option<Status>,
) -> bool {
    let s = g.entities@;
    if forall|j: int| 0 <= j < s.len() ==> !is_alive(#[trigger] s[j]) {
        returns_control(g, h, e, g2, h2, e2, stop)
    } else {
        let ai = choose|i: int| is_next_actor(s, i);
        if s[ai].kind == Kind::Mage {
            let b = burn_all(s, lit_list(g, g.w * g.h), t);
            exists|ga: GameState| #[trigger] ticked(g, ga, t) && mage_turn(ga, h || b.2, e + b.1, t, g2, h2, e2, stop)
        } else {
            enemy_turn(g, ai, h, e, t, g2, h2, e2, stop)
        }
    }
}

/// The time chain from `g` with at most `k` more rounds before the guard stops it:
/// it ends in `gf` with events `ef` and status `st`.
pub open spec fn chain_rel(
    g: GameState,
    h: bool,
    e: Seq<Event>,
    t: TierTable,
    gf: GameState,
    ef: Seq<Event>,
    st: Status,
    k: nat,
) -> bool
    decreases k,
{
    if k == 0 {
        gf == g && ef == e && st == Status::AwaitingInput
    } else {
        ||| exists|h2: bool| #[trigger] chain_round(g, h, e, t, gf, h2, ef, Some(st))
        ||| exists|g2: GameState, h2: bool, e2: Seq<Event>|
            #[trigger] chain_round(g, h, e, t, g2, h2, e2, None) && chain_rel(g2, h2, e2, t, gf, ef, st, (k - 1) as nat)
    }
}

/// The mage's spell `spell` at `target` from `g`, ending in `ga` with events `e1`: a
/// two-turn spell starts charging; any other resolves (see `cast_post`). The first event
/// reports the cast.
pub open spec fn cast_done(g: GameState, ga: GameState, spell: Spell, target: Target, t: TierTable, e1: Seq<Event>) -> bool {
    let mi = g.mage_index();
    let m = g.mage_spec();
    &&& e1.len() >= 1
    &&& is_cast_event(e1[0], m.id, spell)
    &&& if is_channel_spec(spell) {
        &&& e1.len() == 1
        &&& ga.wf()
        &&& same_board(g, ga)
        &&& ga.room_idx == g.room_idx
        &&& ga.core == g.core
        &&& ga.has_mage()
        &&& ga.mage_index() == mi
        &&& ga.entities@.len() == g.entities@.len()
        &&& forall|i: int| 0 <= i < g.entities@.len() && i != mi ==> #[trigger] ga.entities@[i] == g.entities@[i]
        &&& fresh_channel(ga.mage_spec().channel, spell, target)
        &&& ga.mage_spec() == (Entity { channel: ga.mage_spec().channel, ..m })
    } else {
        kept_frame(g, ga) && cast_post(spell, g, ga, target, t, e1.drop_first())
    }
}

/// `b` is `a` with the mage's walk set to the rest `p.drop_first()` of the path `p` when
/// `auto`, and cleared otherwise.
pub open spec fn walk_set(a: GameState, b: GameState, p: Seq<(i32, i32)>, auto: bool) -> bool {
    let mi = a.mage_index();
    let m = a.mage_spec();
    &&& same_board(a, b)
    &&& b.room_idx == a.room_idx
    &&& b.core == a.core
    &&& b.entities@.len() == a.entities@.len()
    &&& forall|i: int| 0 <= i < a.entities@.len() && i != mi ==> #[trigger] b.entities@[i] == a.entities@[i]
    &&& b.entities@[mi] == (Entity { path: b.entities@[mi].path, ..m })
    &&& if auto {
        b.entities@[mi].path matches Some(v) && v@ == p.drop_first()
    } else {
        b.entities@[mi].path is None
    }
}

/// The mage keeps walking the path `p` after its first cell: the path is longer than one
/// cell and no alive enemy stands next to the mage or to that cell.
pub open spec fn auto_walk(g: GameState, p: Seq<(i32, i32)>) -> bool {
    let m = g.mage_spec();
    p.len() > 1 && !(adj_enemy(g.entities@, m.x as int, m.y as int) || adj_enemy(g.entities@, p[0].0 as int, p[0].1 as int))
}

/// The accepted action `a` of the player from `g` (see `step`), with hurt flag `h0`
/// before it: the state `g1` after the mage's turn ended, the hurt flag `h1` and the
/// events `e1`. Waiting just ends the turn; a potion heals by `POTION_HEAL` up to the
/// maximum; a spell is cast (see `cast_done`); a move takes the first cell of
/// `astar_path`, keeping the rest as the walk unless the walk would be braked at once
/// (an alive enemy next to the mage or to that cell) or the path is a single cell.
pub open spec fn acted(
    g: GameState,
    a: Action,
    t: TierTable,
    h0: bool,
    g1: GameState,
    h1: bool,
    e1: Seq<Event>,
) -> bool {
    let mi = g.mage_index();
    let m = g.mage_spec();
    let s = g.entities@;
    match a {
        Action::Wait => turn_ended(g, g1) && h1 == h0 && e1 == Seq::<Event>::empty(),
        Action::Potion => {
            let healed = if m.hp + POTION_HEAL <= m.maxhp {
                POTION_HEAL as int
            } else {
                m.maxhp - m.hp
            };
            let m1 = Entity { hp: (m.hp + healed) as i32, ..m };
            &&& with_ents(g, g1, s.update(mi, advanced(m1)))
            &&& h1 == h0
            &&& e1 == seq![Event::Healed { id: m.id, amt: healed as i32 }]
        },
        Action::Cast { spell, target } => exists|ga: GameState|
            #[trigger] cast_done(g, ga, spell, target, t, e1) && turn_ended(ga, g1) && h1 == h0,
        Action::MoveTo { x, y } => match astar_path(g, m.x as int, m.y as int, x as int, y as int) {
            Some(p) => crate::movement::path_valid(g, m.x as int, m.y as int, x as int, y as int, p) && exists|ga: GameState, gb: GameState|
                #[trigger] walk_set(g, ga, p, auto_walk(g, p)) && #[trigger] stepped(ga, gb, p[0].0 as int, p[0].1 as int, t)
                    && turn_ended(gb, g1) && h1 == step_hurts(ga, p[0].0 as int, p[0].1 as int) && e1 == mage_move_events(
                    ga,
                    p[0].0 as int,
                    p[0].1 as int,
                    t,
                ),
            None => false,
        },
        Action::Release => false,
    }
}

/// `b` is `a` after the charged blast at `(cx, cy)` (see `resolve_heavy`), with events `e`.
pub open spec fn blasted(a: GameState, b: GameState, cx: int, cy: int, t: TierTable, e: Seq<Event>) -> bool {
    &&& b.wf()
    &&& b.w == a.w
    &&& b.h == a.h
    &&& b.room_idx == a.room_idx
    &&& b.core == a.core
    &&& b.has_mage()
    &&& b.mage_index() == a.mage_index()
    &&& forall|x: int, y: int|
        a.inb(x, y) ==> #[trigger] cell_of(b, x, y) == if in_plus(cx, cy, x, y) {
            blast_step(cell_of(a, x, y))
        } else {
            cell_of(a, x, y)
        }
    &&& b.entities@ == heavy_result(a, b, cx, cy, t).0
    &&& e == heavy_result(a, b, cx, cy, t).1
}

/// The release of the mage's ready charge from `g`: the charge is dropped, the blast
/// resolves at its target (see `blasted`), and the mage's turn ends.
pub open spec fn released(g: GameState, t: TierTable, h0: bool, g1: GameState, h1: bool, e1: Seq<Event>) -> bool {
    let mi = g.mage_index();
    let m = g.mage_spec();
    match m.channel {
        Some(ch) => exists|ga: GameState, gb: GameState|
            #[trigger] with_ents(g, ga, g.entities@.update(mi, Entity { channel: None, ..m })) && #[trigger] blasted(
                ga,
                gb,
                ch.tx as int,
                ch.ty as int,
                t,
                e1,
            ) && turn_ended(gb, g1) && h1 == h0,
        None => turn_ended(g, g1) && h1 == h0 && e1 == Seq::<Event>::empty(),
    }
}

/// The mage is free for the player's next action: it holds no charge and no walk is left.
pub open spec fn mage_free(g: GameState) -> bool {
    &&& g.mage_spec().channel is None
    &&& match g.mage_spec().path {
        Some(p) => p@.len() == 0,
        None => true,
    }
}

/// Entity lists whose kinds agree place the mage at the same index.
proof fn lemma_mage_index_kinds(s: Seq<Entity>, s2: Seq<Entity>)
    requires
        s.len() == s2.len(),
        forall|i: int| 0 <= i < s.len() ==> (#[trigger] s2[i]).kind == s[i].kind,
    ensures
        crate::state::mage_index_s(s2) == crate::state::mage_index_s(s),
        crate::state::has_mage_s(s2) == crate::state::has_mage_s(s),
{
    let p = crate::state::mage_pred();
    assert forall|i: int| 0 <= i < s.len() implies p(#[trigger] s[i]) == p(s2[i]) by {
        assert(s2[i].kind == s[i].kind);
    }
    crate::determinism::lemma_first_index_same(s, s2, p);
}

/// The walk on a turn that hands control back leaves the mage free.
proof fn lemma_walk_frees(g: GameState, h: bool, e: Seq<Event>, t: TierTable, g2: GameState, h2: bool, e2: Seq<Event>)
    requires
        g.has_mage(),
        g.mage_spec().channel is None,
        walk_turn(g, h, e, t, g2, h2, e2, Some(Status::AwaitingInput)),
    ensures
        mage_free(g2),
{
    let mi = g.mage_index();
    let m = g.mage_spec();
    let s = g.entities@;
    crate::state::lemma_first_index(s, crate::state::mage_pred());
    if let Some(p) = m.path {
        if p@.len() > 0 {
            let n = p@[0];
            let (nx, ny) = (n.0 as int, n.1 as int);
            if h || adj_enemy(s, m.x as int, m.y as int) || adj_enemy(s, nx, ny) || !walkable_spec(g, nx, ny) || g.ent_at(
                nx,
                ny,
            ) is Some {
                let s2 = s.update(mi, Entity { path: None, ..m });
                lemma_mage_index_kinds(s, s2);
            } else {
                let g2_ = g2;
                assert(terminal_spec(g2_) != Some(Status::AwaitingInput));
            }
        }
    }
}

/// A round of the time chain that hands control back to the player (see `chain_round`)
/// leaves the mage free: no charge held and no walk left.
pub proof fn law_input_round_frees_mage(
    g: GameState,
    h: bool,
    e: Seq<Event>,
    t: TierTable,
    g2: GameState,
    h2: bool,
    e2: Seq<Event>,
)
    requires
        g.has_mage(),
        exists|j: int| 0 <= j < g.entities@.len() && is_alive(#[trigger] g.entities@[j]),
        chain_round(g, h, e, t, g2, h2, e2, Some(Status::AwaitingInput)),
    ensures
        mage_free(g2),
{
    let s = g.entities@;
    let ai = choose|i: int| is_next_actor(s, i);
    if s[ai].kind == Kind::Mage {
        let b = burn_all(s, lit_list(g, g.w * g.h), t);
        let ga = choose|ga: GameState| #[trigger] ticked(g, ga, t) && mage_turn(ga, h || b.2, e + b.1, t, g2, h2, e2, Some(Status::AwaitingInput));
        crate::terrain::lemma_burn_times(s, lit_list(g, g.w * g.h), t);
        lemma_mage_index_kinds(s, ga.entities@);
        let m = ga.mage_spec();
        let mi = ga.mage_index();
        crate::state::lemma_first_index(ga.entities@, crate::state::mage_pred());
        if terminal_spec(ga) is None {
            if let Some(ch) = m.channel {
                if ch.interrupted {
                    let gb = choose|gb: GameState|
                        #[trigger] with_ents(ga, gb, ga.entities@.update(mi, Entity { channel: None, ..m })) && walk_turn(
                            gb, h || b.2, e + b.1, t, g2, h2, e2, Some(Status::AwaitingInput));
                    lemma_mage_index_kinds(ga.entities@, gb.entities@);
                    lemma_walk_frees(gb, h || b.2, e + b.1, t, g2, h2, e2);
                }
            } else {
                lemma_walk_frees(ga, h || b.2, e + b.1, t, g2, h2, e2);
            }
        }
    }
}

/// `e` opens `f`: the events so far stay in front.
pub open spec fn ev_opens(e: Seq<Event>, f: Seq<Event>) -> bool {
    &&& e.len() <= f.len()
    &&& forall|i: int| 0 <= i < e.len() ==> #[trigger] f[i] == e[i]
}

proof fn lemma_opens_cat(e: Seq<Event>, x: Seq<Event>, f: Seq<Event>)
    requires
        ev_opens(e + x, f),
    ensures
        ev_opens(e, f),
{
    assert forall|i: int| 0 <= i < e.len() implies #[trigger] f[i] == e[i] by {
        assert(f[i] == (e + x)[i]);
    }
}

/// The walk keeps the events so far in front.
proof fn lemma_walk_opens(g: GameState, h: bool, e: Seq<Event>, t: TierTable, g2: GameState, h2: bool, e2: Seq<Event>, stop: Option<Status>)
    requires
        walk_turn(g, h, e, t, g2, h2, e2, stop),
    ensures
        ev_opens(e, e2),
{
    let m = g.mage_spec();
    if let Some(p) = m.path {
        if p@.len() > 0 {
            let n = p@[0];
            let (nx, ny) = (n.0 as int, n.1 as int);
            let s = g.entities@;
            if !(h || adj_enemy(s, m.x as int, m.y as int) || adj_enemy(s, nx, ny) || !walkable_spec(g, nx, ny)
                || g.ent_at(nx, ny) is Some) {
                let (gc, gd) = choose|gc: GameState, gd: GameState|
                    #[trigger] walk_popped(g, gc, p@) && #[trigger] stepped(gc, gd, nx, ny, t) && turn_ended(gd, g2) && h2
                        == (h || step_hurts(gc, nx, ny)) && e2 == e + mage_move_events(gc, nx, ny, t) && stop
                        == terminal_spec(g2);
                assert(ev_opens(e + mage_move_events(gc, nx, ny, t), e2));
                lemma_opens_cat(e, mage_move_events(gc, nx, ny, t), e2);
            }
        }
    }
}

/// A round of the time chain keeps the events so far in front.
proof fn lemma_round_opens(g: GameState, h: bool, e: Seq<Event>, t: TierTable, g2: GameState, h2: bool, e2: Seq<Event>, stop: Option<Status>)
    requires
        chain_round(g, h, e, t, g2, h2, e2, stop),
    ensures
        ev_opens(e, e2),
{
    let s = g.entities@;
    if !(forall|j: int| 0 <= j < s.len() ==> !is_alive(#[trigger] s[j])) {
        let ai = choose|i: int| is_next_actor(s, i);
        if s[ai].kind == Kind::Mage {
            let b = burn_all(s, lit_list(g, g.w * g.h), t);
            let e1 = e + b.1;
            let ga = choose|ga: GameState| #[trigger] ticked(g, ga, t) && mage_turn(ga, h || b.2, e1, t, g2, h2, e2, stop);
            let m = ga.mage_spec();
            if terminal_spec(ga) is None {
                if let Some(ch) = m.channel {
                    if ch.interrupted {
                        let gb = choose|gb: GameState|
                            #[trigger] with_ents(ga, gb, ga.entities@.update(ga.mage_index(), Entity { channel: None, ..m }))
                                && walk_turn(gb, h || b.2, e1, t, g2, h2, e2, stop);
                        lemma_walk_opens(gb, h || b.2, e1, t, g2, h2, e2, stop);
                    }
                } else {
                    lemma_walk_opens(ga, h || b.2, e1, t, g2, h2, e2, stop);
                }
            }
            assert(ev_opens(e1, e2));
            lemma_opens_cat(e, b.1, e2);
        } else {
            let ga = choose|ga: GameState|
                #[trigger] act_post(g, ga, ai, t, e, e2) && same_board(g, ga) && ga.room_idx == g.room_idx && ga.core == g.core
                    && with_ents(
                    ga,
                    g2,
                    ga.entities@.update(
                        ai,
                        Entity {
                            time: (ga.entities@[ai].time + time_step_spec(eff_speed_spec(ga.entities@[ai]))) as i64,
                            ..ga.entities@[ai]
                        },
                    ),
                ) && h2 == (h || strikes_mage(g, ai)) && stop == if g2.mage_spec().hp <= 0 {
                    Some(Status::Defeat)
                } else {
                    None
                };
            let x = crate::ai::act_result(g, ai, t).1;
            if !(e2 == e) {
                assert(e2 == e + x);
                lemma_opens_cat(e, x, e2);
            }
        }
    }
}

/// The time chain keeps the events so far in front.
pub proof fn lemma_chain_opens(g: GameState, h: bool, e: Seq<Event>, t: TierTable, gf: GameState, ef: Seq<Event>, st: Status, k: nat)
    requires
        chain_rel(g, h, e, t, gf, ef, st, k),
    ensures
        ev_opens(e, ef),
    decreases k,
{
    if k > 0 {
        if exists|h2: bool| #[trigger] chain_round(g, h, e, t, gf, h2, ef, Some(st)) {
            let h2 = choose|h2: bool| #[trigger] chain_round(g, h, e, t, gf, h2, ef, Some(st));
            lemma_round_opens(g, h, e, t, gf, h2, ef, Some(st));
        } else {
            let (g2, h2, e2) = choose|g2: GameState, h2: bool, e2: Seq<Event>|
                #[trigger] chain_round(g, h, e, t, g2, h2, e2, None) && chain_rel(g2, h2, e2, t, gf, ef, st, (k - 1) as nat);
            lemma_round_opens(g, h, e, t, g2, h2, e2, None);
            lemma_chain_opens(g2, h2, e2, t, gf, ef, st, (k - 1) as nat);
        }
    }
}

} // verus!
