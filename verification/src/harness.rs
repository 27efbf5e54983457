//! A baseline agent that plays the game on its own, used to check that rooms can be
//! solved and that whole runs replay identically (proved in `determinism`).
use crate::grid::{cheb, cheb_spec, coord_ok, ent_index_at, in_bounds, sign, sign_spec, walkable, walkable_spec};
use crate::movement::{astar_path, find_path, path_valid};
use crate::roguelite::{apply_drop, apply_pick, dropped, fresh_run, gen_offers, init_base, init_room, base_playable, lines, loaded, offers_spec, picked, playable, strs_of, PickResult, RunState};
use crate::config::ROOMS;
use crate::events::Event;
use crate::spells::Reject;
use crate::step_post;
use crate::config::ROOM_COUNT;
use crate::events::Status;
use crate::spells::{baseline_spec, validate, validate_spec, Spell, Target};
use crate::state::{ent_ok, first_index, is_alive, lemma_first_index, mage_pred, Entity, GameState, Kind, Tile};
use crate::{action_reject, blocked_dest, step, turn_ok, Action, CHAIN_GUARD};
use crate::determinism::{same_run, same_state};
use vstd::prelude::*;

verus! {

/// The spell may be used in the run: a baseline spell or a picked one.
pub open spec fn owns(run: RunState, s: Spell) -> bool {
    baseline_spec(s) || run.acquired@.contains(s)
}

/// An alive enemy.
pub open spec fn is_foe(e: Entity) -> bool {
    is_alive(e) && e.kind != Kind::Mage
}

/// A cell the mage can step onto right now: next to it, walkable, and free of alive units.
pub open spec fn free_step(g: GameState, x: int, y: int) -> bool {
    let m = g.mage_spec();
    cheb_spec(m.x as int, m.y as int, x, y) == 1 && walkable_spec(g, x, y) && g.ent_at(x, y) is None
}

/// The indices of the alive enemies among the first `n` entities, in entity order.
pub open spec fn foe_indices(s: Seq<Entity>, n: int) -> Seq<usize>
    decreases n,
{
    if n <= 0 {
        Seq::empty()
    } else if is_foe(s[n - 1]) {
        foe_indices(s, n - 1).push((n - 1) as usize)
    } else {
        foe_indices(s, n - 1)
    }
}

/// Every action the agent may choose: a spell it owns that validates, a free step next
/// to the mage, a potion (when one is left and the mage is low), or waiting.
pub open spec fn agent_ok(g: GameState, run: RunState, a: Action) -> bool {
    match a {
        Action::Wait => true,
        Action::Potion => run.potions > 0 && g.mage_spec().hp <= 4,
        Action::Cast { spell, target } => owns(run, spell) && validate_spec(spell, g, target) is Ok,
        Action::MoveTo { x, y } => free_step(g, x as int, y as int),
        Action::Release => false,
    }
}

/// The target cell of an entity.
pub open spec fn at(e: Entity) -> Target {
    Target { x: e.x, y: e.y }
}

/// An alive golem.
pub open spec fn boss_foe_pred() -> spec_fn(Entity) -> bool {
    |e: Entity| is_foe(e) && e.kind == Kind::Boss
}

/// The golem the agent fights: the first alive golem.
pub open spec fn boss_foe(s: Seq<Entity>) -> Option<int> {
    first_index(s, boss_foe_pred())
}

/// What the agent does against the golem `b`: drink when low and unable to hit it
/// outside its overheat, burn it with a fireball while it is overheated, else shoot a
/// bolt at it; when it cannot hit the golem it steps toward it (see `toward`) or waits.
pub open spec fn boss_choice(g: GameState, run: RunState, b: Entity, a: Action) -> bool {
    let m = g.mage_spec();
    let bolt_ok = validate_spec(Spell::Bolt, g, at(b)) is Ok;
    if !b.exhausted && m.hp <= 4 && run.potions > 0 && !bolt_ok {
        a == Action::Potion
    } else if b.exhausted && owns(run, Spell::Fire) && validate_spec(Spell::Fire, g, at(b)) is Ok {
        a == Action::Cast { spell: Spell::Fire, target: at(b) }
    } else if bolt_ok {
        a == Action::Cast { spell: Spell::Bolt, target: at(b) }
    } else {
        a == step_or_wait(toward(g, m.x as int, m.y as int, b.x as int, b.y as int))
    }
}

/// Stepping onto the cell when there is one, else waiting.
pub open spec fn step_or_wait(c: Option<(i32, i32)>) -> Action {
    match c {
        Some(st) => Action::MoveTo { x: st.0, y: st.1 },
        None => Action::Wait,
    }
}

/// Bolt targets are ranked: imps before rune eyes, then fewer hit points, then nearer to
/// the mage, then lower id. `a` ranks strictly before `b`.
pub open spec fn bolt_rank_lt(g: GameState, a: Entity, b: Entity) -> bool {
    let m = g.mage_spec();
    let (ea, eb) = (a.kind == Kind::Eye, b.kind == Kind::Eye);
    let da = cheb_spec(m.x as int, m.y as int, a.x as int, a.y as int);
    let db = cheb_spec(m.x as int, m.y as int, b.x as int, b.y as int);
    (!ea && eb) || (ea == eb && (a.hp < b.hp || (a.hp == b.hp && (da < db || (da == db && a.id < b.id)))))
}

/// The first cell of `astar_path` from `(sx, sy)` toward `(tx, ty)`, when it is walkable
/// and free of units.
pub open spec fn toward(g: GameState, sx: int, sy: int, tx: int, ty: int) -> Option<(i32, i32)> {
    match astar_path(g, sx, sy, tx, ty) {
        Some(p) => if p.len() > 0 && walkable_spec(g, p[0].0 as int, p[0].1 as int) && g.ent_at(
            p[0].0 as int,
            p[0].1 as int,
        ) is None {
            Some(p[0])
        } else {
            None
        },
        None => None,
    }
}

/// The first step of a path from `(sx, sy)` toward `(tx, ty)` when that cell is walkable
/// and free of units.
fn step_toward(g: &GameState, sx: i32, sy: i32, tx: i32, ty: i32) -> (r: Option<(i32, i32)>)
    requires
        g.wf(),
        g.inb(sx as int, sy as int),
        coord_ok(tx as int),
        coord_ok(ty as int),
    ensures
        r matches Some(c) ==> cheb_spec(sx as int, sy as int, c.0 as int, c.1 as int) == 1 && walkable_spec(
            *g,
            c.0 as int,
            c.1 as int,
        ) && g.ent_at(c.0 as int, c.1 as int) is None,
        r == toward(*g, sx as int, sy as int, tx as int, ty as int),
{
    let path = match find_path(g, sx, sy, tx, ty) {
        Some(p) => p,
        None => return None,
    };
    if path.len() == 0 {
        return None;
    }
    let (nx, ny) = path[0];
    if walkable(g, nx, ny) && ent_index_at(g, nx, ny).is_none() {
        Some((nx, ny))
    } else {
        None
    }
}

/// The alive enemies, in entity order.
fn enemies(g: &GameState) -> (r: Vec<usize>)
    ensures
        r@ == foe_indices(g.entities@, g.entities@.len() as int),
{
    let mut out: Vec<usize> = Vec::new();
    let mut i: usize = 0;
    while i < g.entities.len()
        invariant
            i <= g.entities@.len(),
            out@ == foe_indices(g.entities@, i as int),
        decreases g.entities@.len() - i,
    {
        if g.entities[i].alive() && !g.entities[i].kind.is_mage() {
            out.push(i);
        }
        i = i + 1;
    }
    out
}

proof fn lemma_foe_indices(s: Seq<Entity>, n: int)
    requires
        0 <= n <= s.len(),
        s.len() <= usize::MAX,
    ensures
        forall|k: int|
            0 <= k < foe_indices(s, n).len() ==> (#[trigger] foe_indices(s, n)[k]) < n && is_foe(
                s[foe_indices(s, n)[k] as int],
            ),
        forall|j: int| 0 <= j < n && is_foe(#[trigger] s[j]) ==> foe_indices(s, n).contains(j as usize),
        forall|a: int, b: int|
            0 <= a < b < foe_indices(s, n).len() ==> #[trigger] foe_indices(s, n)[a] < #[trigger] foe_indices(s, n)[b],
    decreases n,
{
    if n > 0 {
        lemma_foe_indices(s, n - 1);
        let p = foe_indices(s, n - 1);
        if is_foe(s[n - 1]) {
            let q = p.push((n - 1) as usize);
            assert(q == foe_indices(s, n));
            assert forall|k: int| 0 <= k < q.len() implies (#[trigger] q[k]) < n && is_foe(s[q[k] as int]) by {
                if k < p.len() {
                    assert(q[k] == p[k]);
                }
            }
            assert forall|a: int, b: int| 0 <= a < b < q.len() implies #[trigger] q[a] < #[trigger] q[b] by {
                assert(q[a] == p[a]);
                if b < p.len() {
                    assert(q[b] == p[b]);
                }
            }
            assert forall|j: int| 0 <= j < n && is_foe(#[trigger] s[j]) implies q.contains(j as usize) by {
                if j < n - 1 {
                    let k = choose|k: int| 0 <= k < p.len() && p[k] == j as usize;
                    assert(q[k] == j as usize);
                } else {
                    assert(q[p.len() as int] == j as usize);
                }
            }
        }
    }
}

/// Spike or fire on the cell.
pub open spec fn hazard(g: GameState, x: int, y: int) -> bool {
    g.tile(x, y) == Tile::Spike || g.fire_at(x, y) > 0
}

/// Spike or fire on a cell of the board.
fn hazard_at(g: &GameState, x: i32, y: i32) -> (r: bool)
    requires
        g.wf(),
        g.inb(x as int, y as int),
    ensures
        r == hazard(*g, x as int, y as int),
{
    g.tiles[y as usize][x as usize] == Tile::Spike || g.fire[y as usize][x as usize] > 0
}

/// The eight directions, row by row from the top left.
pub open spec fn dir8_spec(k: int) -> (int, int) {
    if k == 0 {
        (-1, -1)
    } else if k == 1 {
        (0, -1)
    } else if k == 2 {
        (1, -1)
    } else if k == 3 {
        (-1, 0)
    } else if k == 4 {
        (1, 0)
    } else if k == 5 {
        (-1, 1)
    } else if k == 6 {
        (0, 1)
    } else {
        (1, 1)
    }
}

/// The eight directions, in the order every scan of the game uses.
fn dir8(k: usize) -> (r: (i32, i32))
    requires
        k < 8,
    ensures
        -1 <= r.0 <= 1,
        -1 <= r.1 <= 1,
        r.0 == dir8_spec(k as int).0,
        r.1 == dir8_spec(k as int).1,
{
    if k == 0 {
        (-1, -1)
    } else if k == 1 {
        (0, -1)
    } else if k == 2 {
        (1, -1)
    } else if k == 3 {
        (-1, 0)
    } else if k == 4 {
        (1, 0)
    } else if k == 5 {
        (-1, 1)
    } else if k == 6 {
        (0, 1)
    } else {
        (1, 1)
    }
}

/// Looking at side `k` (see `dir8_spec`) of the enemy `e`, the mage on `(mx, my)`, with
/// the scan so far in `st` (a push to make at once, and the best spot to walk to with
/// its path length). A free hazard cell on that side makes the cell opposite it the
/// push spot: a mage already there takes the push when it validates; otherwise, when
/// pursuing, a free and safe spot whose path is at most two cells and strictly shorter
/// than the best so far becomes the best. Once a push is taken nothing changes.
pub open spec fn push_look(
    g: GameState,
    mx: int,
    my: int,
    e: Entity,
    k: int,
    allow: bool,
    st: (Option<Action>, Option<((i32, i32), int)>),
) -> (Option<Action>, Option<((i32, i32), int)>) {
    let (dx, dy) = dir8_spec(k);
    let (hx, hy) = (e.x + dx, e.y + dy);
    let (px, py) = (e.x - dx, e.y - dy);
    if st.0 is Some || !g.inb(hx, hy) || !hazard(g, hx, hy) || !walkable_spec(g, hx, hy) || g.ent_at(hx, hy) is Some {
        st
    } else if mx == px && my == py && validate_spec(Spell::Push, g, at(e)) is Ok {
        (Some(Action::Cast { spell: Spell::Push, target: at(e) }), st.1)
    } else if !g.inb(px, py) || !walkable_spec(g, px, py) || g.ent_at(px, py) is Some || hazard(g, px, py) || !allow {
        st
    } else {
        match astar_path(g, mx, my, px, py) {
            Some(path) => if path.len() <= 2 && match st.1 {
                None => true,
                Some(b) => path.len() < b.1,
            } {
                (st.0, Some(((px as i32, py as i32), path.len() as int)))
            } else {
                st
            },
            None => st,
        }
    }
}

/// `push_look` over the first `k` sides of `e`.
pub open spec fn push_look_upto(
    g: GameState,
    mx: int,
    my: int,
    e: Entity,
    allow: bool,
    st: (Option<Action>, Option<((i32, i32), int)>),
    k: int,
) -> (Option<Action>, Option<((i32, i32), int)>)
    decreases k,
{
    if k <= 0 {
        st
    } else {
        push_look(g, mx, my, e, k - 1, allow, push_look_upto(g, mx, my, e, allow, st, k - 1))
    }
}

/// The scan of `push_look` over every side of the first `n` enemies of `foes` (golems
/// cannot be pushed and are skipped), the mage on `(mx, my)`.
pub open spec fn push_scan(g: GameState, mx: int, my: int, foes: Seq<usize>, allow: bool, n: int) -> (
    Option<Action>,
    Option<((i32, i32), int)>,
)
    decreases n,
{
    if n <= 0 {
        (None, None)
    } else {
        let st = push_scan(g, mx, my, foes, allow, n - 1);
        let e = g.entities@[foes[n - 1] as int];
        if e.kind == Kind::Boss {
            st
        } else {
            push_look_upto(g, mx, my, e, allow, st, 8)
        }
    }
}

/// The environmental kill the agent goes for among `foes`: the first push found, else a
/// step toward the best spot (see `toward`), if any.
pub open spec fn push_pick(g: GameState, foes: Seq<usize>, allow: bool) -> Option<Action> {
    let m = g.mage_spec();
    let st = push_scan(g, m.x as int, m.y as int, foes, allow, foes.len() as int);
    match st.0 {
        Some(a) => Some(a),
        None => match st.1 {
            Some(b) => match toward(g, m.x as int, m.y as int, b.0.0 as int, b.0.1 as int) {
                Some(c) => Some(Action::MoveTo { x: c.0, y: c.1 }),
                None => None,
            },
            None => None,
        },
    }
}

/// The best spot with its path length as an integer.
pub open spec fn opt_best(b: Option<((i32, i32), usize)>) -> Option<((i32, i32), int)> {
    match b {
        Some(v) => Some((v.0, v.1 as int)),
        None => None,
    }
}

/// A push found among the first `k1` sides stays found.
proof fn lemma_look_found(
    g: GameState,
    mx: int,
    my: int,
    e: Entity,
    allow: bool,
    st: (Option<Action>, Option<((i32, i32), int)>),
    k1: int,
    k2: int,
)
    requires
        k1 <= k2,
        push_look_upto(g, mx, my, e, allow, st, k1).0 is Some,
    ensures
        push_look_upto(g, mx, my, e, allow, st, k2) == push_look_upto(g, mx, my, e, allow, st, k1),
    decreases k2 - k1,
{
    if k2 > k1 {
        lemma_look_found(g, mx, my, e, allow, st, k1, k2 - 1);
    }
}

proof fn lemma_look_upto_done(
    g: GameState,
    mx: int,
    my: int,
    e: Entity,
    allow: bool,
    st: (Option<Action>, Option<((i32, i32), int)>),
    k: int,
)
    requires
        st.0 is Some,
    ensures
        push_look_upto(g, mx, my, e, allow, st, k) == st,
    decreases k,
{
    if k > 0 {
        lemma_look_upto_done(g, mx, my, e, allow, st, k - 1);
    }
}

/// A push once found is what the whole scan finds.
proof fn lemma_scan_done(g: GameState, mx: int, my: int, foes: Seq<usize>, allow: bool, n1: int, n2: int)
    requires
        0 <= n1 <= n2,
        push_scan(g, mx, my, foes, allow, n1).0 is Some,
    ensures
        push_scan(g, mx, my, foes, allow, n2) == push_scan(g, mx, my, foes, allow, n1),
    decreases n2,
{
    if n2 > n1 {
        lemma_scan_done(g, mx, my, foes, allow, n1, n2 - 1);
        lemma_look_upto_done(g, mx, my, g.entities@[foes[n2 - 1] as int], allow, push_scan(g, mx, my, foes, allow, n1), 8);
    }
}

/// Some enemy of `foes` stands next to the mage.
pub open spec fn threatened(g: GameState, foes: Seq<usize>) -> bool {
    let m = g.mage_spec();
    exists|k: int|
        0 <= k < foes.len() && cheb_spec(
            m.x as int,
            m.y as int,
            g.entities@[#[trigger] foes[k] as int].x as int,
            g.entities@[foes[k] as int].y as int,
        ) == 1
}

/// The hook the agent casts: at the first of the first `n` enemies of `foes` (golems
/// skipped) whose first pulled step toward the mage is an on-board spike or fire, and
/// that a hook validates on.
pub open spec fn hook_pick(g: GameState, foes: Seq<usize>, n: int) -> Option<Action>
    decreases n,
{
    if n <= 0 {
        None
    } else {
        match hook_pick(g, foes, n - 1) {
            Some(a) => Some(a),
            None => {
                let m = g.mage_spec();
                let e = g.entities@[foes[n - 1] as int];
                let sx = e.x + sign_spec(m.x - e.x);
                let sy = e.y + sign_spec(m.y - e.y);
                if e.kind != Kind::Boss && g.inb(sx, sy) && hazard(g, sx, sy) && validate_spec(
                    Spell::Hook,
                    g,
                    at(e),
                ) is Ok {
                    Some(Action::Cast { spell: Spell::Hook, target: at(e) })
                } else {
                    None
                }
            },
        }
    }
}

/// A hook found among the first `n1` enemies stays the one found.
proof fn lemma_hook_found(g: GameState, foes: Seq<usize>, n1: int, n2: int)
    requires
        n1 <= n2,
        hook_pick(g, foes, n1) is Some,
    ensures
        hook_pick(g, foes, n2) == hook_pick(g, foes, n1),
    decreases n2 - n1,
{
    if n2 > n1 {
        lemma_hook_found(g, foes, n1, n2 - 1);
    }
}

/// The bolt target among the first `n` enemies of `foes`: the best-ranked (see
/// `bolt_rank_lt`) that a bolt validates on, the first one on equal rank.
pub open spec fn bolt_pick(g: GameState, foes: Seq<usize>, n: int) -> Option<usize>
    decreases n,
{
    if n <= 0 {
        None
    } else {
        let b = bolt_pick(g, foes, n - 1);
        let i = foes[n - 1];
        if validate_spec(Spell::Bolt, g, at(g.entities@[i as int])) is Ok {
            match b {
                None => Some(i),
                Some(c) => if bolt_rank_lt(g, g.entities@[i as int], g.entities@[c as int]) {
                    Some(i)
                } else {
                    b
                },
            }
        } else {
            b
        }
    }
}

/// The nearest of the first `n` enemies of `foes` (at least one), the lower id on equal
/// distance, the earlier one on a full tie.
#[verifier::opaque]
pub open spec fn nearest(g: GameState, foes: Seq<usize>, n: int) -> usize
    decreases n,
{
    if n <= 1 {
        foes[0]
    } else {
        let b = nearest(g, foes, n - 1);
        let m = g.mage_spec();
        let e = g.entities@[foes[n - 1] as int];
        let c = g.entities@[b as int];
        let de = cheb_spec(m.x as int, m.y as int, e.x as int, e.y as int);
        let dc = cheb_spec(m.x as int, m.y as int, c.x as int, c.y as int);
        if de < dc || (de == dc && e.id < c.id) {
            foes[n - 1]
        } else {
            b
        }
    }
}

/// The action of the baseline agent: with no enemy left it waits; against a golem see
/// `boss_choice`; otherwise, in order, a push for an environmental kill (see
/// `push_pick`; the spot is pursued only when no enemy stands next to the mage), a hook
/// into a hazard, a bolt at the best-ranked enemy in range, and else a step toward the
/// nearest enemy, or waiting.
pub open spec fn agent_choice(g: GameState, run: RunState) -> Action {
    let s = g.entities@;
    let foes = foe_indices(s, s.len() as int);
    let m = g.mage_spec();
    if foes.len() == 0 {
        Action::Wait
    } else {
        match boss_foe(s) {
            Some(b) => boss_pick(g, run, s[b]),
            None => {
                let push = if owns(run, Spell::Push) {
                    push_pick(g, foes, !threatened(g, foes))
                } else {
                    None
                };
                let hook = if owns(run, Spell::Hook) {
                    hook_pick(g, foes, foes.len() as int)
                } else {
                    None
                };
                match push {
                    Some(a) => a,
                    None => match hook {
                        Some(a) => a,
                        None => match bolt_pick(g, foes, foes.len() as int) {
                            Some(b) => Action::Cast { spell: Spell::Bolt, target: at(s[b as int]) },
                            None => {
                                let n = s[nearest(g, foes, foes.len() as int) as int];
                                step_or_wait(toward(g, m.x as int, m.y as int, n.x as int, n.y as int))
                            },
                        },
                    },
                }
            },
        }
    }
}

/// What the agent does against the golem `b` (see `boss_choice`).
pub open spec fn boss_pick(g: GameState, run: RunState, b: Entity) -> Action {
    let m = g.mage_spec();
    let bolt_ok = validate_spec(Spell::Bolt, g, at(b)) is Ok;
    if !b.exhausted && m.hp <= 4 && run.potions > 0 && !bolt_ok {
        Action::Potion
    } else if b.exhausted && owns(run, Spell::Fire) && validate_spec(Spell::Fire, g, at(b)) is Ok {
        Action::Cast { spell: Spell::Fire, target: at(b) }
    } else if bolt_ok {
        Action::Cast { spell: Spell::Bolt, target: at(b) }
    } else {
        step_or_wait(toward(g, m.x as int, m.y as int, b.x as int, b.y as int))
    }
}

/// Setting up an environmental kill: for an enemy E next to a free hazard cell H (spike
/// or fire), the mage standing on the cell opposite H pushes E into it. Already standing
/// there, it pushes; otherwise, when `allow_pursuit` is set, it walks toward the nearest
/// such spot reachable in at most two steps.
fn try_push_kill(g: &GameState, run: &RunState, mx: i32, my: i32, foes: &Vec<usize>, allow_pursuit: bool) -> (r:
    Option<Action>)
    requires
        turn_ok(*g),
        mx == g.mage_spec().x,
        my == g.mage_spec().y,
        owns(*run, Spell::Push),
        forall|k: int| 0 <= k < foes@.len() ==> (#[trigger] foes@[k]) < g.entities@.len(),
    ensures
        r matches Some(a) ==> agent_ok(*g, *run, a) && (a is Cast || a is MoveTo) && (a is Cast ==> a->spell
            == Spell::Push),
        r == push_pick(*g, foes@, allow_pursuit),
{
    let mut best_move: Option<((i32, i32), usize)> = None;
    let mut fi: usize = 0;
    while fi < foes.len()
        invariant
            turn_ok(*g),
            mx == g.mage_spec().x,
            my == g.mage_spec().y,
            fi <= foes@.len(),
            forall|k: int| 0 <= k < foes@.len() ==> (#[trigger] foes@[k]) < g.entities@.len(),
            best_move matches Some(b) ==> coord_ok(b.0.0 as int) && coord_ok(b.0.1 as int),
            (None::<Action>, opt_best(best_move)) == push_scan(*g, mx as int, my as int, foes@, allow_pursuit, fi as int),
        decreases foes@.len() - fi,
    {
        let e = &g.entities[foes[fi]];
        let ghost st0 = push_scan(*g, mx as int, my as int, foes@, allow_pursuit, fi as int);
        proof {
            assert(ent_ok(g.entities@[foes@[fi as int] as int]));
            assert(*e == g.entities@[foes@[fi as int] as int]);
        }
        if e.kind != Kind::Boss {
            let mut k: usize = 0;
            while k < 8
                invariant
                    turn_ok(*g),
                    mx == g.mage_spec().x,
                    my == g.mage_spec().y,
                    k <= 8,
                    ent_ok(*e),
                    best_move matches Some(b) ==> coord_ok(b.0.0 as int) && coord_ok(b.0.1 as int),
                    (None::<Action>, opt_best(best_move)) == push_look_upto(
                        *g,
                        mx as int,
                        my as int,
                        *e,
                        allow_pursuit,
                        st0,
                        k as int,
                    ),
                    fi < foes@.len(),
                    *e == g.entities@[foes@[fi as int] as int],
                    e.kind != Kind::Boss,
                    st0 == push_scan(*g, mx as int, my as int, foes@, allow_pursuit, fi as int),
                    forall|q: int| 0 <= q < foes@.len() ==> (#[trigger] foes@[q]) < g.entities@.len(),
                decreases 8 - k,
            {
                let (dx, dy) = dir8(k);
                let ghost k0 = k as int;
                let ghost sk = (None::<Action>, opt_best(best_move));
                let (hx, hy) = (e.x + dx, e.y + dy);
                k = k + 1;
                if !in_bounds(g, hx, hy) {
                    proof {
                        assert(push_look(*g, mx as int, my as int, *e, k0, allow_pursuit, sk) == sk);
                    }
                    continue;
                }
                if !hazard_at(g, hx, hy) || !walkable(g, hx, hy) || ent_index_at(g, hx, hy).is_some() {
                    proof {
                        assert(push_look(*g, mx as int, my as int, *e, k0, allow_pursuit, sk) == sk);
                    }
                    continue;
                }
                let (px, py) = (e.x - dx, e.y - dy);
                if mx == px && my == py {
                    let t = Target::cell(e.x, e.y);
                    if validate(Spell::Push, g, t).is_ok() {
                        proof {
                            assert(t == at(*e));
                            let st1 = push_look_upto(*g, mx as int, my as int, *e, allow_pursuit, st0, k as int);
                            assert(st1.0 == Some(Action::Cast { spell: Spell::Push, target: t }));
                            lemma_look_found(*g, mx as int, my as int, *e, allow_pursuit, st0, k as int, 8);
                            assert(push_scan(*g, mx as int, my as int, foes@, allow_pursuit, fi + 1) == st1);
                            lemma_scan_done(*g, mx as int, my as int, foes@, allow_pursuit, fi + 1, foes@.len() as int);
                        }
                        return Some(Action::Cast { spell: Spell::Push, target: t });
                    }
                }
                if !in_bounds(g, px, py) || !walkable(g, px, py) || ent_index_at(g, px, py).is_some() || hazard_at(
                    g,
                    px,
                    py,
                ) {
                    proof {
                        assert(push_look(*g, mx as int, my as int, *e, k0, allow_pursuit, sk) == sk);
                    }
                    continue;
                }
                if allow_pursuit {
                    proof {
                        lemma_first_index(g.entities@, mage_pred());
                        assert(ent_ok(g.entities@[g.mage_index()]));
                    }
                    match find_path(g, mx, my, px, py) {
                        Some(path) => {
                            let l = path.len();
                            let better = match best_move {
                                None => true,
                                Some((_, bl)) => l < bl,
                            };
                            if l <= 2 && better {
                                best_move = Some(((px, py), l));
                            }
                        },
                        None => {},
                    }
                }
                proof {
                    assert((None::<Action>, opt_best(best_move)) == push_look(
                        *g,
                        mx as int,
                        my as int,
                        *e,
                        k0,
                        allow_pursuit,
                        sk,
                    ));
                }
            }
        }
        fi = fi + 1;
    }
    match best_move {
        Some((p, _)) => {
            match step_toward(g, mx, my, p.0, p.1) {
                Some(s) => Some(Action::MoveTo { x: s.0, y: s.1 }),
                None => None,
            }
        },
        None => None,
    }
}

/// Whether the run may use spell `s`.
fn owns_spell(run: &RunState, s: Spell) -> (r: bool)
    ensures
        r == owns(*run, s),
{
    if s.baseline() {
        return true;
    }
    let mut i: usize = 0;
    while i < run.acquired.len()
        invariant
            i <= run.acquired@.len(),
            forall|j: int| 0 <= j < i ==> run.acquired@[j] != s,
        decreases run.acquired@.len() - i,
    {
        if run.acquired[i] == s {
            return true;
        }
        i = i + 1;
    }
    false
}

/// `bolt_rank_lt` computed, the mage standing on `(mx, my)`.
fn bolt_rank_before(g: &GameState, mx: i32, my: i32, a: &Entity, b: &Entity) -> (r: bool)
    requires
        g.has_mage(),
        mx == g.mage_spec().x,
        my == g.mage_spec().y,
        ent_ok(g.mage_spec()),
        ent_ok(*a),
        ent_ok(*b),
    ensures
        r == bolt_rank_lt(*g, *a, *b),
{
    let ea = a.kind == Kind::Eye;
    let eb = b.kind == Kind::Eye;
    if ea != eb {
        return !ea;
    }
    if a.hp != b.hp {
        return a.hp < b.hp;
    }
    let da = cheb(mx, my, a.x, a.y);
    let db = cheb(mx, my, b.x, b.y);
    if da != db {
        return da < db;
    }
    a.id < b.id
}

/// The index of the first alive golem.
fn find_boss(g: &GameState) -> (r: Option<usize>)
    ensures
        match r {
            Some(b) => boss_foe(g.entities@) == Some(b as int) && b < g.entities@.len(),
            None => boss_foe(g.entities@) is None,
        },
{
    proof {
        lemma_first_index(g.entities@, boss_foe_pred());
    }
    let mut i: usize = 0;
    while i < g.entities.len()
        invariant
            i <= g.entities@.len(),
            forall|j: int| 0 <= j < i ==> !boss_foe_pred()(#[trigger] g.entities@[j]),
        decreases g.entities@.len() - i,
    {
        if g.entities[i].alive() && g.entities[i].kind == Kind::Boss {
            proof {
                crate::state::lemma_first_index_at(g.entities@, boss_foe_pred(), i as int);
            }
            return Some(i);
        }
        i = i + 1;
    }
    None
}

/// What the agent does against the golem `bi` (see `boss_choice`).
fn boss_action(g: &GameState, run: &RunState, bi: usize) -> (a: Action)
    requires
        turn_ok(*g),
        bi < g.entities@.len(),
    ensures
        boss_choice(*g, *run, g.entities@[bi as int], a),
        agent_ok(*g, *run, a),
        a == boss_pick(*g, *run, g.entities@[bi as int]),
{
    proof {
        lemma_first_index(g.entities@, mage_pred());
        assert(ent_ok(g.entities@[g.mage_index()]));
        assert(ent_ok(g.entities@[bi as int]));
    }
    let m = g.mage();
    let (mx, my, mhp) = (m.x, m.y, m.hp);
    let b = &g.entities[bi];
    let bt = Target::cell(b.x, b.y);
    let can_bolt = validate(Spell::Bolt, g, bt).is_ok();
    if !b.exhausted && mhp <= 4 && run.potions > 0 && !can_bolt {
        return Action::Potion;
    }
    if b.exhausted && owns_spell(run, Spell::Fire) && validate(Spell::Fire, g, bt).is_ok() {
        return Action::Cast { spell: Spell::Fire, target: bt };
    }
    if can_bolt {
        return Action::Cast { spell: Spell::Bolt, target: bt };
    }
    match step_toward(g, mx, my, b.x, b.y) {
        Some(st) => Action::MoveTo { x: st.0, y: st.1 },
        None => Action::Wait,
    }
}

/// Pushing an enemy into a hazard, when the run owns the push (pursuing the spot only
/// when no enemy stands next to the mage).
fn push_action(g: &GameState, run: &RunState, foes: &Vec<usize>) -> (r: Option<Action>)
    requires
        turn_ok(*g),
        forall|k: int| 0 <= k < foes@.len() ==> (#[trigger] foes@[k]) < g.entities@.len(),
    ensures
        r matches Some(a) ==> agent_ok(*g, *run, a) && (a is Cast || a is MoveTo) && (a is Cast ==> a->spell
            == Spell::Push),
        r == if owns(*run, Spell::Push) {
            push_pick(*g, foes@, !threatened(*g, foes@))
        } else {
            None
        },
{
    if !owns_spell(run, Spell::Push) {
        return None;
    }
    proof {
        lemma_first_index(g.entities@, mage_pred());
        assert(ent_ok(g.entities@[g.mage_index()]));
    }
    let m = g.mage();
    let (mx, my) = (m.x, m.y);
    let mut threatened = false;
    let mut q: usize = 0;
    while q < foes.len()
        invariant
            q <= foes@.len(),
            forall|k: int| 0 <= k < foes@.len() ==> (#[trigger] foes@[k]) < g.entities@.len(),
            ents_all_ok(g.entities@),
            g.has_mage(),
            mx == g.mage_spec().x,
            my == g.mage_spec().y,
            ent_ok(g.mage_spec()),
            threatened == exists|k: int|
                0 <= k < q && cheb_spec(
                    mx as int,
                    my as int,
                    g.entities@[#[trigger] foes@[k] as int].x as int,
                    g.entities@[foes@[k] as int].y as int,
                ) == 1,
        decreases foes@.len() - q,
    {
        let e = &g.entities[foes[q]];
        proof {
            assert(ent_ok(g.entities@[foes@[q as int] as int]));
        }
        if cheb(mx, my, e.x, e.y) == 1 {
            threatened = true;
        }
        q = q + 1;
    }
    try_push_kill(g, run, mx, my, foes, !threatened)
}

/// Hooking an enemy whose first pulled step lands on a spike or fire, when the run owns
/// the hook.
#[verifier::rlimit(80)]
fn hook_action(g: &GameState, run: &RunState, foes: &Vec<usize>) -> (r: Option<Action>)
    requires
        turn_ok(*g),
        forall|k: int| 0 <= k < foes@.len() ==> (#[trigger] foes@[k]) < g.entities@.len(),
    ensures
        r matches Some(a) ==> agent_ok(*g, *run, a) && a is Cast && a->spell == Spell::Hook,
        r == if owns(*run, Spell::Hook) {
            hook_pick(*g, foes@, foes@.len() as int)
        } else {
            None
        },
{
    if !owns_spell(run, Spell::Hook) {
        return None;
    }
    proof {
        lemma_first_index(g.entities@, mage_pred());
        assert(ent_ok(g.entities@[g.mage_index()]));
    }
    let m = g.mage();
    let (mx, my) = (m.x, m.y);
    let mut q: usize = 0;
    while q < foes.len()
        invariant
            q <= foes@.len(),
            forall|k: int| 0 <= k < foes@.len() ==> (#[trigger] foes@[k]) < g.entities@.len(),
            ents_all_ok(g.entities@),
            turn_ok(*g),
            owns(*run, Spell::Hook),
            mx == g.mage_spec().x,
            my == g.mage_spec().y,
            ent_ok(g.mage_spec()),
            hook_pick(*g, foes@, q as int) is None,
        decreases foes@.len() - q,
    {
        let e = &g.entities[foes[q]];
        proof {
            assert(ent_ok(g.entities@[foes@[q as int] as int]));
        }
        if e.kind != Kind::Boss {
            let sx = e.x + sign(mx - e.x);
            let sy = e.y + sign(my - e.y);
            let t = Target::cell(e.x, e.y);
            if in_bounds(g, sx, sy) && hazard_at(g, sx, sy) && validate(Spell::Hook, g, t).is_ok() {
                proof {
                    assert(t == at(g.entities@[foes@[q as int] as int]));
                    assert(hook_pick(*g, foes@, q + 1) == Some(Action::Cast { spell: Spell::Hook, target: t }));
                    lemma_hook_found(*g, foes@, q + 1, foes@.len() as int);
                }
                return Some(Action::Cast { spell: Spell::Hook, target: t });
            }
        }
        q = q + 1;
    }
    None
}

/// The best-ranked enemy (see `bolt_rank_lt`) that a bolt can hit; the first one on
/// equal rank.
fn best_bolt_target(g: &GameState, foes: &Vec<usize>) -> (r: Option<usize>)
    requires
        turn_ok(*g),
        foes@ == foe_indices(g.entities@, g.entities@.len() as int),
    ensures
        r matches Some(b) ==> b < g.entities@.len() && is_foe(g.entities@[b as int]) && validate_spec(
            Spell::Bolt,
            *g,
            at(g.entities@[b as int]),
        ) is Ok && forall|j: int|
            0 <= j < g.entities@.len() && is_foe(#[trigger] g.entities@[j]) && validate_spec(
                Spell::Bolt,
                *g,
                at(g.entities@[j]),
            ) is Ok ==> !bolt_rank_lt(*g, g.entities@[j], g.entities@[b as int]),
        r == bolt_pick(*g, foes@, foes@.len() as int),
{
    let ghost s = g.entities@;
    proof {
        lemma_first_index(g.entities@, mage_pred());
        assert(ent_ok(g.entities@[g.mage_index()]));
        lemma_foe_indices(s, s.len() as int);
    }
    let m = g.mage();
    let (mx, my) = (m.x, m.y);
    let mut best: Option<usize> = None;
    let mut q: usize = 0;
    while q < foes.len()
        invariant
            q <= foes@.len(),
            forall|k: int| 0 <= k < foes@.len() ==> (#[trigger] foes@[k]) < s.len() && is_foe(s[foes@[k] as int]),
            s == g.entities@,
            ents_all_ok(s),
            turn_ok(*g),
            mx == g.mage_spec().x,
            my == g.mage_spec().y,
            ent_ok(g.mage_spec()),
            best matches Some(b) ==> b < s.len() && is_foe(s[b as int]) && validate_spec(
                Spell::Bolt,
                *g,
                at(s[b as int]),
            ) is Ok,
            forall|k: int|
                0 <= k < q && validate_spec(Spell::Bolt, *g, at(s[(#[trigger] foes@[k]) as int])) is Ok ==> (best matches Some(b)
                    && !bolt_rank_lt(*g, s[foes@[k] as int], s[b as int])),
            best == bolt_pick(*g, foes@, q as int),
        decreases foes@.len() - q,
    {
        let i = foes[q];
        let e = &g.entities[i];
        proof {
            assert(ent_ok(s[i as int]));
        }
        let t = Target::cell(e.x, e.y);
        proof {
            assert(t == at(s[i as int]));
        }
        if validate(Spell::Bolt, g, t).is_ok() {
            match best {
                None => {
                    best = Some(i);
                },
                Some(b) => {
                    proof {
                        assert(ent_ok(s[b as int]));
                    }
                    if bolt_rank_before(g, mx, my, e, &g.entities[b]) {
                        best = Some(i);
                        proof {
                            assert forall|k: int|
                                0 <= k <= q && validate_spec(Spell::Bolt, *g, at(s[(#[trigger] foes@[k]) as int])) is Ok
                                    implies !bolt_rank_lt(*g, s[foes@[k] as int], s[i as int]) by {
                                if k < q {
                                    lemma_rank_trans(*g, s[foes@[k] as int], s[i as int], s[b as int]);
                                }
                            }
                        }
                    }
                },
            }
        }
        q = q + 1;
    }
    proof {
        if best is Some {
            let b = best->0;
            assert forall|j: int|
                0 <= j < s.len() && is_foe(#[trigger] s[j]) && validate_spec(Spell::Bolt, *g, at(s[j])) is Ok
                    implies !bolt_rank_lt(*g, s[j], s[b as int]) by {
                assert(foes@.contains(j as usize));
                let k = choose|k: int| 0 <= k < foes@.len() && foes@[k] == j as usize;
                assert(s[foes@[k] as int] == s[j]);
            }
        }
    }
    best
}

/// A step toward the nearest enemy (the lowest id among the nearest), or waiting.
#[verifier::rlimit(30)]
fn approach(g: &GameState, foes: &Vec<usize>) -> (a: Action)
    requires
        turn_ok(*g),
        foes@.len() > 0,
        forall|k: int| 0 <= k < foes@.len() ==> (#[trigger] foes@[k]) < g.entities@.len(),
    ensures
        a == Action::Wait || (a matches Action::MoveTo { x, y } && free_step(*g, x as int, y as int)),
        a == step_or_wait(
            toward(
                *g,
                g.mage_spec().x as int,
                g.mage_spec().y as int,
                g.entities@[nearest(*g, foes@, foes@.len() as int) as int].x as int,
                g.entities@[nearest(*g, foes@, foes@.len() as int) as int].y as int,
            ),
        ),
{
    let ghost s = g.entities@;
    proof {
        lemma_first_index(g.entities@, mage_pred());
        assert(ent_ok(g.entities@[g.mage_index()]));
    }
    let m = g.mage();
    let (mx, my) = (m.x, m.y);
    let mut near: usize = foes[0];
    let mut q: usize = 1;
    proof {
        assert(nearest(*g, foes@, 1) == foes@[0]) by {
            reveal(nearest);
        }
    }
    while q < foes.len()
        invariant
            1 <= q <= foes@.len(),
            forall|k: int| 0 <= k < foes@.len() ==> (#[trigger] foes@[k]) < s.len(),
            near < s.len(),
            s == g.entities@,
            ents_all_ok(s),
            mx == g.mage_spec().x,
            my == g.mage_spec().y,
            ent_ok(g.mage_spec()),
            g.has_mage(),
            near == nearest(*g, foes@, q as int),
        decreases foes@.len() - q,
    {
        let e = &g.entities[foes[q]];
        let n = &g.entities[near];
        proof {
            assert(ent_ok(s[foes@[q as int] as int]));
            assert(ent_ok(s[near as int]));
        }
        let de = cheb(mx, my, e.x, e.y);
        let dn = cheb(mx, my, n.x, n.y);
        let ghost near0 = near;
        if de < dn || (de == dn && e.id < n.id) {
            near = foes[q];
        }
        proof {
            assert(*e == s[foes@[q as int] as int]);
            assert(*n == s[near0 as int]);
            assert(near == nearest(*g, foes@, q + 1)) by {
                reveal(nearest);
            }
        }
        q = q + 1;
    }
    let n = &g.entities[near];
    proof {
        assert(ent_ok(s[near as int]));
        assert(near == nearest(*g, foes@, foes@.len() as int));
    }
    let st = step_toward(g, mx, my, n.x, n.y);
    match st {
        Some(c) => Action::MoveTo { x: c.0, y: c.1 },
        None => Action::Wait,
    }
}

/// Picks the next action (a greedy baseline). Against a golem it keeps hitting it
/// (see `boss_choice`). Otherwise, in order: push an enemy into a spike or fire (or walk
/// to the spot for it when no enemy is adjacent), hook an enemy whose first pulled step
/// is a hazard, shoot the best-ranked enemy in bolt range (see `bolt_rank_lt`), else
/// walk toward the nearest enemy, or wait. The choice is exactly `agent_choice`; it is
/// never refused by `step` (a potion aside), and a bolt goes to a best-ranked target.
pub fn choose_action(g: &GameState, run: &RunState) -> (a: Action)
    requires
        turn_ok(*g),
    ensures
        agent_ok(*g, *run, a),
        a !is Potion ==> action_reject(*g, *run, a) is None,
        (forall|j: int| 0 <= j < g.entities@.len() ==> !is_foe(#[trigger] g.entities@[j])) ==> a == Action::Wait,
        boss_foe(g.entities@) matches Some(b) ==> boss_choice(*g, *run, g.entities@[b], a),
        boss_foe(g.entities@) is None ==> a !is Potion,
        boss_foe(g.entities@) is None ==> (a matches Action::Cast { spell: Spell::Bolt, target } ==> exists|i: int|
            0 <= i < g.entities@.len() && is_foe(#[trigger] g.entities@[i]) && at(g.entities@[i]) == target
                && forall|j: int|
                0 <= j < g.entities@.len() && is_foe(#[trigger] g.entities@[j]) && validate_spec(
                    Spell::Bolt,
                    *g,
                    at(g.entities@[j]),
                ) is Ok ==> !bolt_rank_lt(*g, g.entities@[j], g.entities@[i])),
        a == agent_choice(*g, *run),
{
    let ghost s = g.entities@;
    proof {
        lemma_first_index(g.entities@, mage_pred());
        assert(ent_ok(g.entities@[g.mage_index()]));
        lemma_foe_indices(s, s.len() as int);
    }
    let a = choose_action_inner(g, run);
    proof {
        lemma_agent_legal(*g, *run, a);
    }
    a
}

#[verifier::rlimit(40)]
fn choose_action_inner(g: &GameState, run: &RunState) -> (a: Action)
    requires
        turn_ok(*g),
    ensures
        agent_ok(*g, *run, a),
        (forall|j: int| 0 <= j < g.entities@.len() ==> !is_foe(#[trigger] g.entities@[j])) ==> a == Action::Wait,
        boss_foe(g.entities@) matches Some(b) ==> boss_choice(*g, *run, g.entities@[b], a),
        boss_foe(g.entities@) is None ==> a !is Potion,
        boss_foe(g.entities@) is None ==> (a matches Action::Cast { spell: Spell::Bolt, target } ==> exists|i: int|
            0 <= i < g.entities@.len() && is_foe(#[trigger] g.entities@[i]) && at(g.entities@[i]) == target
                && forall|j: int|
                0 <= j < g.entities@.len() && is_foe(#[trigger] g.entities@[j]) && validate_spec(
                    Spell::Bolt,
                    *g,
                    at(g.entities@[j]),
                ) is Ok ==> !bolt_rank_lt(*g, g.entities@[j], g.entities@[i])),
        a == agent_choice(*g, *run),
{
    let ghost s = g.entities@;
    proof {
        lemma_foe_indices(s, s.len() as int);
        lemma_first_index(s, boss_foe_pred());
    }
    let foes = enemies(g);
    if foes.len() == 0 {
        proof {
            assert forall|j: int| 0 <= j < s.len() implies !is_foe(#[trigger] s[j]) by {
                if is_foe(s[j]) {
                    assert(foes@.contains(j as usize));
                }
            }
        }
        return Action::Wait;
    }
    proof {
        assert(is_foe(s[foes@[0] as int]));
    }
    match find_boss(g) {
        Some(bi) => {
            return boss_action(g, run, bi);
        },
        None => {},
    }
    match push_action(g, run, &foes) {
        Some(a) => {
            return a;
        },
        None => {},
    }
    match hook_action(g, run, &foes) {
        Some(a) => {
            return a;
        },
        None => {},
    }
    match best_bolt_target(g, &foes) {
        Some(b) => {
            proof {
                assert(at(s[b as int]) == Target { x: s[b as int].x, y: s[b as int].y });
            }
            let e = &g.entities[b];
            return Action::Cast { spell: Spell::Bolt, target: Target::cell(e.x, e.y) };
        },
        None => {},
    }
    approach(g, &foes)
}

/// What the agent may choose is never refused by `step`, a potion aside.
proof fn lemma_agent_legal(g: GameState, run: RunState, a: Action)
    requires
        turn_ok(g),
        agent_ok(g, run, a),
    ensures
        a !is Potion ==> action_reject(g, run, a) is None,
{
    match a {
        Action::MoveTo { x, y } => {
            assert(!blocked_dest(g, x as int, y as int));
            let m = g.mage_spec();
            let p = seq![(x, y)];
            assert(path_valid(g, m.x as int, m.y as int, x as int, y as int, p));
        },
        _ => {},
    }
}

/// Every entity is within its bounds.
pub open spec fn ents_all_ok(s: Seq<Entity>) -> bool {
    forall|i: int| 0 <= i < s.len() ==> ent_ok(#[trigger] s[i])
}

proof fn lemma_rank_trans(g: GameState, a: Entity, b: Entity, c: Entity)
    requires
        bolt_rank_lt(g, b, c),
        !bolt_rank_lt(g, a, c),
    ensures
        !bolt_rank_lt(g, a, b),
{
}

/// The preferred pick among the offers: fireball, then push, then hook, else the first
/// offer.
pub open spec fn pick_choice(o: Seq<Spell>) -> Option<Spell> {
    if o.contains(Spell::Fire) {
        Some(Spell::Fire)
    } else if o.contains(Spell::Push) {
        Some(Spell::Push)
    } else if o.contains(Spell::Hook) {
        Some(Spell::Hook)
    } else if o.len() > 0 {
        Some(o[0])
    } else {
        None
    }
}

fn offered(o: &[Spell], s: Spell) -> (r: bool)
    ensures
        r == o@.contains(s),
{
    let mut i: usize = 0;
    while i < o.len()
        invariant
            i <= o@.len(),
            forall|j: int| 0 <= j < i ==> o@[j] != s,
        decreases o@.len() - i,
    {
        if o[i] == s {
            return true;
        }
        i = i + 1;
    }
    false
}

/// The agent's pick among the offers (see `pick_choice`); `None` when nothing is offered.
pub fn choose_pick(offers: &[Spell]) -> (r: Option<Spell>)
    ensures
        r == pick_choice(offers@),
{
    if offered(offers, Spell::Fire) {
        Some(Spell::Fire)
    } else if offered(offers, Spell::Push) {
        Some(Spell::Push)
    } else if offered(offers, Spell::Hook) {
        Some(Spell::Hook)
    } else if offers.len() > 0 {
        Some(offers[0])
    } else {
        None
    }
}

/// One recorded operation of a run.
#[derive(Clone, Copy, Debug, PartialEq, Eq)]
pub enum RunOp {
    Battle(Action),
    Pick(Spell),
    Drop { take: Spell, drop: Spell },
    NextRoom,
}

/// The observable end state of a run, for comparing two runs.
#[derive(Clone, Debug, PartialEq, Eq)]
pub struct Snapshot {
    pub entities: Vec<(u32, i32, i32, i32, i64)>,
    pub tiles: Vec<Vec<Tile>>,
    pub fire: Vec<Vec<i32>>,
    pub burn_t: Vec<Vec<i32>>,
    pub acquired: Vec<Spell>,
    pub potions: u32,
    pub room_idx: usize,
}

/// The result of one run of the agent.
pub struct Trace {
    pub outcome: Status,
    pub steps: usize,
    pub max_room: usize,
    pub ops: Vec<RunOp>,
    pub final_snapshot: Snapshot,
}

/// The result of a raid on a base: `RunComplete` when it fell, `Defeat` when it held,
/// anything else when the step budget ran out first.
pub struct RaidResult {
    pub outcome: Status,
    pub steps: usize,
}

/// Id, position, hit points and clock of an entity.
pub open spec fn ent_row(e: Entity) -> (u32, i32, i32, i32, i64) {
    (e.id, e.x, e.y, e.hp, e.time)
}

/// The snapshot shows the battle `g` and the run `run`.
pub open spec fn shows(sn: Snapshot, g: GameState, run: RunState) -> bool {
    &&& sn.entities@ == g.entities@.map_values(|e: Entity| ent_row(e))
    &&& sn.tiles@.len() == g.tiles@.len()
    &&& forall|y: int| 0 <= y < g.tiles@.len() ==> (#[trigger] sn.tiles@[y])@ == g.tiles@[y]@
    &&& sn.fire@.len() == g.fire@.len()
    &&& forall|y: int| 0 <= y < g.fire@.len() ==> (#[trigger] sn.fire@[y])@ == g.fire@[y]@
    &&& sn.burn_t@.len() == g.burn_t@.len()
    &&& forall|y: int| 0 <= y < g.burn_t@.len() ==> (#[trigger] sn.burn_t@[y])@ == g.burn_t@[y]@
    &&& sn.acquired@ == run.acquired@
    &&& sn.potions == run.potions
    &&& sn.room_idx == run.room_idx
}

fn copy_grid<T: Copy>(grid: &Vec<Vec<T>>) -> (r: Vec<Vec<T>>)
    ensures
        r@.len() == grid@.len(),
        forall|y: int| 0 <= y < grid@.len() ==> (#[trigger] r@[y])@ == grid@[y]@,
{
    let mut out: Vec<Vec<T>> = Vec::new();
    let mut y: usize = 0;
    while y < grid.len()
        invariant
            y <= grid@.len(),
            out@.len() == y,
            forall|k: int| 0 <= k < y ==> (#[trigger] out@[k])@ == grid@[k]@,
        decreases grid@.len() - y,
    {
        let row = &grid[y];
        let mut nr: Vec<T> = Vec::new();
        let mut x: usize = 0;
        while x < row.len()
            invariant
                x <= row@.len(),
                nr@ == row@.take(x as int),
            decreases row@.len() - x,
        {
            nr.push(row[x]);
            proof {
                assert(nr@ =~= row@.take(x as int + 1));
            }
            x = x + 1;
        }
        proof {
            assert(nr@ =~= row@);
        }
        out.push(nr);
        y = y + 1;
    }
    out
}

fn copy_spells(v: &[Spell]) -> (r: Vec<Spell>)
    ensures
        r@ == v@,
{
    let mut out: Vec<Spell> = Vec::new();
    let mut i: usize = 0;
    while i < v.len()
        invariant
            i <= v@.len(),
            out@ == v@.take(i as int),
        decreases v@.len() - i,
    {
        out.push(v[i]);
        proof {
            assert(out@ =~= v@.take(i as int + 1));
        }
        i = i + 1;
    }
    proof {
        assert(out@ =~= v@);
    }
    out
}

/// The snapshot of a battle and its run.
fn snapshot(g: &GameState, run: &RunState) -> (sn: Snapshot)
    ensures
        shows(sn, *g, *run),
{
    let mut ents: Vec<(u32, i32, i32, i32, i64)> = Vec::new();
    let mut i: usize = 0;
    while i < g.entities.len()
        invariant
            i <= g.entities@.len(),
            ents@ == g.entities@.take(i as int).map_values(|e: Entity| ent_row(e)),
        decreases g.entities@.len() - i,
    {
        let e = &g.entities[i];
        ents.push((e.id, e.x, e.y, e.hp, e.time));
        proof {
            assert(ents@ =~= g.entities@.take(i as int + 1).map_values(|e: Entity| ent_row(e)));
        }
        i = i + 1;
    }
    proof {
        assert(g.entities@.take(i as int) =~= g.entities@);
    }
    Snapshot {
        entities: ents,
        tiles: copy_grid(&g.tiles),
        fire: copy_grid(&g.fire),
        burn_t: copy_grid(&g.burn_t),
        acquired: copy_spells(run.acquired.as_slice()),
        potions: run.potions,
        room_idx: run.room_idx,
    }
}

/// Most battle steps a driver may take; it keeps every clock far from overflowing.
pub open spec fn step_cap() -> int {
    7_000_000_000_000
}

/// Every clock is at most `n` steps' worth of time units past zero.
pub open spec fn clocks_within(g: GameState, n: int) -> bool {
    forall|i: int|
        0 <= i < g.entities@.len() ==> 0 <= (#[trigger] g.entities@[i]).time <= 12 * (CHAIN_GUARD + 1) * n
}

pub(crate) proof fn lemma_clocks_room(g: GameState, n: int)
    requires
        clocks_within(g, n),
        0 <= n <= step_cap(),
    ensures
        g.time_room(CHAIN_GUARD + 2),
{
    assert forall|i: int| 0 <= i < g.entities@.len() implies 0 <= (#[trigger] g.entities@[i]).time <= i64::MAX - 12 * (
    CHAIN_GUARD + 2) by {
        assert(12 * (CHAIN_GUARD + 1) * n <= 12 * 100_001 * 7_000_000_000_000int) by (nonlinear_arith)
            requires
                0 <= n <= 7_000_000_000_000int,
                CHAIN_GUARD == 100_000,
        ;
    }
}

pub(crate) proof fn lemma_clocks_step(a: GameState, b: GameState, n: int)
    requires
        clocks_within(a, n),
        crate::times_within(a.entities@, b.entities@, CHAIN_GUARD + 1) || a.entities@ == b.entities@,
        n >= 0,
    ensures
        clocks_within(b, n + 1),
{
}

/// The battle of a run waits for the mage, or the run is over.
pub open spec fn driving(g: GameState, run: RunState, status: Status) -> bool {
    &&& turn_ok(g)
    &&& g.room_idx == run.room_idx
    &&& run.room_idx < ROOM_COUNT
    &&& g.core is None
    &&& terminal_or_waiting(g, status)
}

/// The status fits the battle: a terminal status is the battle's, any other the mage's
/// turn.
pub open spec fn terminal_or_waiting(g: GameState, status: Status) -> bool {
    status == Status::PickOffered ==> g.room_idx + 1 < ROOM_COUNT
}

/// `g` is room `i` as loaded (see `init_room`).
pub open spec fn room_at(i: int, g: GameState) -> bool {
    loaded(lines(ROOMS@[i]@), i as usize, false, g)
}

/// The operation `op` taken from battle `g`, run `run` and status `st` leads to `g2`,
/// `run2`, `st2`: a battle operation is one `step` (see `step_post`); a pick or a drop
/// changes the run only (see `picked`, `dropped`); `NextRoom` loads the next room and
/// waits for the mage.
#[verifier::opaque]
pub open spec fn op_leads(
    g: GameState,
    run: RunState,
    st: Status,
    op: RunOp,
    g2: GameState,
    run2: RunState,
    st2: Status,
) -> bool {
    match op {
        RunOp::Battle(a) => exists|ev: Seq<Event>, rej: Option<Reject>| #[trigger] step_post(g, run, a, g2, run2, ev, st2, rej),
        RunOp::Pick(s) => exists|res: PickResult| #[trigger] picked(run, s, run2, res) && g2 == g && st2 == st,
        RunOp::Drop { take, drop } => dropped(run, take, drop, run2) && g2 == g && st2 == st,
        RunOp::NextRoom => {
            &&& run2 == (RunState { room_idx: (run.room_idx + 1) as usize, ..run })
            &&& room_at(run.room_idx + 1, g2)
            &&& st2 == Status::AwaitingInput
        },
    }
}

/// The room an entry of the run's log was made in.
pub open spec fn op_room(o: crate::roguelite::Op) -> usize {
    match o {
        crate::roguelite::Op::Pick { room, .. } => room,
        crate::roguelite::Op::Upgrade { room, .. } => room,
    }
}

/// The run already took its pick in its current room (its log ends with an entry made
/// there).
pub open spec fn picked_here(run: RunState) -> bool {
    run.op_log@.len() > 0 && op_room(run.op_log@.last()) == run.room_idx
}

/// Taking `s` needs a spell dropped: it is new and every slot is taken.
pub open spec fn needs_drop(run: RunState, s: Spell) -> bool {
    !run.acquired@.contains(s) && run.acquired@.len() >= crate::config::SPELL_CAP
}

/// The operation is the one the agent takes there: on the mage's turn its
/// `agent_choice` (waiting through a release turn); on a pick not yet taken in this room
/// its `pick_choice` of the offers, as a pick, or as a drop of the oldest spell when
/// every slot is taken; and the next room once the pick was taken or none is offered.
#[verifier::opaque]
pub open spec fn agent_op(g: GameState, run: RunState, st: Status, op: RunOp) -> bool {
    match op {
        RunOp::Battle(a) => {
            ||| st == Status::AwaitingRelease && a == Action::Wait
            ||| st == Status::AwaitingInput && a == agent_choice(g, run)
        },
        RunOp::Pick(s) => st == Status::PickOffered && !picked_here(run) && pick_choice(offers_spec(run)) == Some(s)
            && !needs_drop(run, s),
        RunOp::Drop { take, drop } => st == Status::PickOffered && !picked_here(run) && pick_choice(offers_spec(run))
            == Some(take) && needs_drop(run, take) && run.acquired@.len() > 0 && drop == run.acquired@[0],
        RunOp::NextRoom => st == Status::PickOffered && (picked_here(run) || pick_choice(offers_spec(run)) is None),
    }
}

/// The battles `gs`, runs `rs` and statuses `ss` a run with seed `seed` goes through
/// on the operations `ops`: it starts fresh on the first room, waiting for the mage, and
/// each operation leads from one entry to the next (see `op_leads`); with `agent` set,
/// every operation is the agent's (see `agent_op`).
pub open spec fn run_trace(
    seed: u32,
    ops: Seq<RunOp>,
    agent: bool,
    gs: Seq<GameState>,
    rs: Seq<RunState>,
    ss: Seq<Status>,
) -> bool {
    &&& gs.len() == ops.len() + 1
    &&& rs.len() == ops.len() + 1
    &&& ss.len() == ops.len() + 1
    &&& fresh_run(seed, rs[0])
    &&& room_at(0, gs[0])
    &&& ss[0] == Status::AwaitingInput
    &&& forall|k: int|
        0 <= k < ops.len() ==> #[trigger] op_leads(gs[k], rs[k], ss[k], ops[k], gs[k + 1], rs[k + 1], ss[k + 1])
    &&& agent ==> forall|k: int| 0 <= k < ops.len() ==> #[trigger] agent_op(gs[k], rs[k], ss[k], ops[k])
}

/// After the operations `ops` of a run with seed `seed` the battle is `g`, the run `run`
/// and the status `st` (see `run_trace`).
pub open spec fn run_after(seed: u32, ops: Seq<RunOp>, agent: bool, g: GameState, run: RunState, st: Status) -> bool {
    exists|gs: Seq<GameState>, rs: Seq<RunState>, ss: Seq<Status>|
        #[trigger] run_trace(seed, ops, agent, gs, rs, ss) && gs.last() == g && rs.last() == run && ss.last() == st
}

/// The agent's run is a run of its operations: replaying them goes through the same
/// relation.
pub proof fn law_agent_run_replays(seed: u32, ops: Seq<RunOp>, g: GameState, run: RunState, st: Status)
    requires
        run_after(seed, ops, true, g, run, st),
    ensures
        run_after(seed, ops, false, g, run, st),
{
    let (gs, rs, ss) = choose|gs: Seq<GameState>, rs: Seq<RunState>, ss: Seq<Status>|
        #[trigger] run_trace(seed, ops, true, gs, rs, ss) && gs.last() == g && rs.last() == run && ss.last() == st;
    assert(run_trace(seed, ops, false, gs, rs, ss));
}

/// One more operation extends the trace.
pub(crate) proof fn lemma_trace_push(
    seed: u32,
    ops: Seq<RunOp>,
    agent: bool,
    gs: Seq<GameState>,
    rs: Seq<RunState>,
    ss: Seq<Status>,
    op: RunOp,
    g2: GameState,
    run2: RunState,
    st2: Status,
)
    requires
        run_trace(seed, ops, agent, gs, rs, ss),
        op_leads(gs.last(), rs.last(), ss.last(), op, g2, run2, st2),
        agent ==> agent_op(gs.last(), rs.last(), ss.last(), op),
    ensures
        run_trace(seed, ops.push(op), agent, gs.push(g2), rs.push(run2), ss.push(st2)),
{
    let o2 = ops.push(op);
    let (g3, r3, s3) = (gs.push(g2), rs.push(run2), ss.push(st2));
    assert forall|k: int| 0 <= k < o2.len() implies #[trigger] op_leads(g3[k], r3[k], s3[k], o2[k], g3[k + 1], r3[k + 1], s3[k + 1]) by {
        if k < ops.len() {
            assert(op_leads(gs[k], rs[k], ss[k], ops[k], gs[k + 1], rs[k + 1], ss[k + 1]));
        }
    }
    if agent {
        assert forall|k: int| 0 <= k < o2.len() implies #[trigger] agent_op(g3[k], r3[k], s3[k], o2[k]) by {
            if k < ops.len() {
                assert(agent_op(gs[k], rs[k], ss[k], ops[k]));
            }
        }
    }
}

pub(crate) proof fn lemma_battles_push(ops: Seq<RunOp>, op: RunOp)
    ensures
        battles(ops.push(op)) == battles(ops) + if op is Battle {
            1int
        } else {
            0
        },
{
    assert(ops.push(op).drop_last() =~= ops);
}

pub(crate) proof fn lemma_next_rooms_push(ops: Seq<RunOp>, op: RunOp)
    ensures
        next_rooms(ops.push(op)) == next_rooms(ops) + if op == RunOp::NextRoom {
            1int
        } else {
            0
        },
{
    assert(ops.push(op).drop_last() =~= ops);
}

/// Number of battle operations.
pub open spec fn battles(ops: Seq<RunOp>) -> int
    decreases ops.len(),
{
    if ops.len() == 0 {
        0
    } else {
        battles(ops.drop_last()) + if ops.last() is Battle {
            1int
        } else {
            0
        }
    }
}

/// Plays one run with the agent: on its turns it chooses an action (on a release turn it
/// just releases), on a pick it takes `choose_pick` of the offers (dropping the oldest
/// spell when every slot is taken) and moves on to the next room. The run ends when it
/// is won or lost, or after `budget` battle steps (at least one). Every operation is
/// recorded.
pub fn play(seed: u32, budget: usize) -> (t: Trace)
    requires
        budget <= step_cap(),
    ensures
        t.steps <= if budget == 0 {
            1
        } else {
            budget
        },
        t.steps < budget ==> (t.outcome == Status::RunComplete || t.outcome == Status::Defeat),
        t.max_room < ROOM_COUNT,
        t.final_snapshot.room_idx == t.max_room,
        t.ops@.len() >= t.steps,
        t.steps == battles(t.ops@),
        next_rooms(t.ops@) == t.max_room,
        t.ops@.len() <= t.steps + 2 * t.max_room,
        exists|g: GameState, run: RunState| #[trigger] run_after(seed, t.ops@, true, g, run, t.outcome)
            && shows(t.final_snapshot, g, run),
{
    let mut run = RunState::new(seed);
    let mut ops: Vec<RunOp> = Vec::new();
    let mut steps: usize = 0;
    let mut max_room: usize = 0;
    let mut g = init_room(0);
    let ghost mut room_steps: int = 0;
    let mut status = Status::AwaitingInput;
    let ghost mut gs: Seq<GameState> = seq![g];
    let ghost mut rs: Seq<RunState> = seq![run];
    let ghost mut ss: Seq<Status> = seq![status];
    proof {
        assert(run_trace(seed, ops@, true, gs, rs, ss));
    }
    loop
        invariant_except_break
            steps == 0 || steps < budget,
        invariant
            run_trace(seed, ops@, true, gs, rs, ss),
            gs.last() == g,
            rs.last() == run,
            ss.last() == status,
            steps == battles(ops@),
            driving(g, run, status),
            max_room == run.room_idx,
            next_rooms(ops@) == run.room_idx,
            ops@.len() <= steps + 2 * run.room_idx,
            forall|i: int| 0 <= i < run.op_log@.len() ==> op_room(#[trigger] run.op_log@[i]) < run.room_idx,
            ops@.len() >= steps,
            crate::roguelite::hand_ok(run),
            0 <= room_steps <= steps,
            clocks_within(g, room_steps),
            budget <= step_cap(),
        ensures
            steps <= if budget == 0 {
                1
            } else {
                budget
            },
            steps < budget ==> (status == Status::RunComplete || status == Status::Defeat),
        decreases budget - steps, ROOM_COUNT - run.room_idx,
    {
        if status == Status::AwaitingInput || status == Status::AwaitingRelease {
            proof {
                lemma_clocks_room(g, room_steps);
            }
            let a = if status == Status::AwaitingRelease {
                Action::Wait
            } else {
                choose_action(&g, &run)
            };
            let ghost o0 = ops@;
            let ghost (gp, rp, sp) = (g, run, status);
            ops.push(RunOp::Battle(a));
            let ghost g0 = g;
            let r = step(&mut g, &mut run, a);
            proof {
                lemma_clocks_step(g0, g, room_steps);
                room_steps = room_steps + 1;
            }
            status = r.status;
            steps = steps + 1;
            proof {
                reveal(op_leads);
                reveal(agent_op);
                assert(step_post(gp, rp, a, g, run, r.events@, status, r.rejected));
                assert(op_leads(gp, rp, sp, RunOp::Battle(a), g, run, status));
                assert(agent_op(gp, rp, sp, RunOp::Battle(a)));
                lemma_trace_push(seed, o0, true, gs, rs, ss, RunOp::Battle(a), g, run, status);
                gs = gs.push(g);
                rs = rs.push(run);
                ss = ss.push(status);
                lemma_battles_push(o0, RunOp::Battle(a));
                lemma_next_rooms_push(o0, RunOp::Battle(a));
            }
            if steps >= budget {
                break;
            }
        } else if status == Status::PickOffered {
            let offers = gen_offers(&run);
            let ghost (gp, rp, sp) = (g, run, status);
            let ghost o0 = ops@;
            match choose_pick(offers.as_slice()) {
                Some(pick) => {
                    match apply_pick(&mut run, pick) {
                        PickResult::Done => {
                            ops.push(RunOp::Pick(pick));
                            proof {
                                reveal(op_leads);
                                reveal(agent_op);
                                assert(picked(rp, pick, run, PickResult::Done));
                                lemma_trace_push(seed, o0, true, gs, rs, ss, RunOp::Pick(pick), g, run, status);
                                lemma_battles_push(o0, RunOp::Pick(pick));
                                lemma_next_rooms_push(o0, RunOp::Pick(pick));
                            }
                        },
                        PickResult::NeedDrop => {
                            proof {
                                assert(run.acquired@.len() > 0);
                            }
                            let drop = run.acquired[0];
                            apply_drop(&mut run, pick, drop);
                            ops.push(RunOp::Drop { take: pick, drop });
                            proof {
                                reveal(op_leads);
                                reveal(agent_op);
                                assert(dropped(rp, pick, drop, run));
                                lemma_trace_push(seed, o0, true, gs, rs, ss, RunOp::Drop { take: pick, drop }, g, run, status);
                                lemma_battles_push(o0, RunOp::Drop { take: pick, drop });
                                lemma_next_rooms_push(o0, RunOp::Drop { take: pick, drop });
                            }
                        },
                    }
                    proof {
                        gs = gs.push(g);
                        rs = rs.push(run);
                        ss = ss.push(status);
                    }
                },
                None => {},
            }
            let ghost o1 = ops@;
            let ghost (gq, rq, sq) = (g, run, status);
            run.room_idx = run.room_idx + 1;
            g = init_room(run.room_idx);
            proof {
                room_steps = 0;
            }
            ops.push(RunOp::NextRoom);
            proof {
                reveal(op_leads);
                reveal(agent_op);
                assert(op_leads(gq, rq, sq, RunOp::NextRoom, g, run, Status::AwaitingInput));
                lemma_trace_push(seed, o1, true, gs, rs, ss, RunOp::NextRoom, g, run, Status::AwaitingInput);
                gs = gs.push(g);
                rs = rs.push(run);
                ss = ss.push(Status::AwaitingInput);
                lemma_battles_push(o1, RunOp::NextRoom);
                lemma_next_rooms_push(o1, RunOp::NextRoom);
            }
            max_room = run.room_idx;
            status = Status::AwaitingInput;
        } else {
            break;
        }
    }
    let final_snapshot = snapshot(&g, &run);
    proof {
        assert(run_after(seed, ops@, true, g, run, status));
    }
    Trace { outcome: status, steps, max_room, ops, final_snapshot }
}

/// Number of `NextRoom` operations.
pub open spec fn next_rooms(ops: Seq<RunOp>) -> int
    decreases ops.len(),
{
    if ops.len() == 0 {
        0
    } else {
        next_rooms(ops.drop_last()) + if ops.last() == RunOp::NextRoom {
            1int
        } else {
            0
        }
    }
}

pub(crate) proof fn lemma_next_rooms_prefix(ops: Seq<RunOp>, i: int)
    requires
        0 <= i < ops.len(),
    ensures
        next_rooms(ops.take(i + 1)) == next_rooms(ops.take(i)) + if ops[i] == RunOp::NextRoom {
            1int
        } else {
            0
        },
        next_rooms(ops.take(i + 1)) <= next_rooms(ops),
    decreases ops.len() - i,
{
    assert(ops.take(i + 1).drop_last() == ops.take(i));
    if i + 1 < ops.len() {
        lemma_next_rooms_prefix(ops, i + 1);
    } else {
        assert(ops.take(i + 1) == ops);
    }
}

/// Replays recorded operations from the start of a run with the same seed, without the
/// agent, and gives the final status and snapshot. Each battle operation is one `step`,
/// picks and drops go to the run, and `NextRoom` loads the next room.
pub fn replay(seed: u32, ops: &[RunOp]) -> (r: (Status, Snapshot))
    requires
        next_rooms(ops@) < ROOM_COUNT,
        ops@.len() <= step_cap(),
    ensures
        r.1.room_idx == next_rooms(ops@),
        exists|g: GameState, run: RunState| #[trigger] run_after(seed, ops@, false, g, run, r.0) && shows(
            r.1,
            g,
            run,
        ),
{
    let mut run = RunState::new(seed);
    let mut g = init_room(0);
    let ghost mut room_steps: int = 0;
    let mut status = Status::AwaitingInput;
    let mut i: usize = 0;
    let ghost mut gs: Seq<GameState> = seq![g];
    let ghost mut rs: Seq<RunState> = seq![run];
    let ghost mut ss: Seq<Status> = seq![status];
    proof {
        assert(ops@.take(0) =~= Seq::<RunOp>::empty());
        assert(run_trace(seed, ops@.take(0), false, gs, rs, ss));
    }
    while i < ops.len()
        invariant
            i <= ops@.len(),
            run_trace(seed, ops@.take(i as int), false, gs, rs, ss),
            gs.last() == g,
            rs.last() == run,
            ss.last() == status,
            ops@.len() <= step_cap(),
            next_rooms(ops@) < ROOM_COUNT,
            turn_ok(g),
            g.room_idx == run.room_idx,
            run.room_idx == next_rooms(ops@.take(i as int)),
            0 <= room_steps <= i,
            clocks_within(g, room_steps),
        decreases ops@.len() - i,
    {
        proof {
            lemma_next_rooms_prefix(ops@, i as int);
            assert(ops@.take(i as int + 1) =~= ops@.take(i as int).push(ops@[i as int]));
        }
        let ghost (gp, rp, sp) = (g, run, status);
        match ops[i] {
            RunOp::Battle(a) => {
                proof {
                    lemma_clocks_room(g, room_steps);
                }
                let ghost g0 = g;
                let r = step(&mut g, &mut run, a);
                proof {
                    lemma_clocks_step(g0, g, room_steps);
                    room_steps = room_steps + 1;
                }
                status = r.status;
                proof {
                    reveal(op_leads);
                    assert(step_post(gp, rp, a, g, run, r.events@, status, r.rejected));
                }
            },
            RunOp::Pick(s) => {
                let res = apply_pick(&mut run, s);
                proof {
                    reveal(op_leads);
                    assert(picked(rp, s, run, res));
                }
            },
            RunOp::Drop { take, drop } => {
                apply_drop(&mut run, take, drop);
                proof {
                    reveal(op_leads);
                }
            },
            RunOp::NextRoom => {
                run.room_idx = run.room_idx + 1;
                g = init_room(run.room_idx);
                proof {
                    room_steps = 0;
                    reveal(op_leads);
                }
                status = Status::AwaitingInput;
            },
        }
        proof {
            assert(op_leads(gp, rp, sp, ops@[i as int], g, run, status));
            lemma_trace_push(seed, ops@.take(i as int), false, gs, rs, ss, ops@[i as int], g, run, status);
            gs = gs.push(g);
            rs = rs.push(run);
            ss = ss.push(status);
        }
        i = i + 1;
    }
    proof {
        assert(ops@.take(i as int) == ops@);
    }
    let sn = snapshot(&g, &run);
    let r = (status, sn);
    proof {
        assert(run_after(seed, ops@, false, g, run, r.0));
        assert(shows(r.1, g, run));
    }
    r
}

/// Number of rooms of a run.
pub fn room_count() -> (r: usize)
    ensures
        r == ROOM_COUNT,
{
    ROOM_COUNT
}

/// The battles `gs`, runs `rs` and statuses `ss` of the agent's raid on the base `rows`
/// carrying `acquired`, through its actions `acts`: it starts on the loaded base with a
/// fresh run (seed 0) holding `acquired`, and each action is the agent's and one `step`
/// (see `agent_op`, `op_leads`).
pub open spec fn raid_trace(
    rows: Seq<Seq<char>>,
    acquired: Seq<Spell>,
    acts: Seq<Action>,
    gs: Seq<GameState>,
    rs: Seq<RunState>,
    ss: Seq<Status>,
) -> bool {
    &&& gs.len() == acts.len() + 1
    &&& rs.len() == acts.len() + 1
    &&& ss.len() == acts.len() + 1
    &&& loaded(rows, 0, true, gs[0])
    &&& rs[0].run_seed == 0
    &&& rs[0].acquired@ == acquired
    &&& forall|s: Spell| #[trigger] rs[0].tiers.tier_of(s) == 1
    &&& rs[0].potions == crate::config::POTION_COUNT
    &&& rs[0].room_idx == 0
    &&& ss[0] == Status::AwaitingInput
    &&& forall|k: int|
        0 <= k < acts.len() ==> #[trigger] op_leads(gs[k], rs[k], ss[k], RunOp::Battle(acts[k]), gs[k + 1], rs[k + 1], ss[k + 1])
            && agent_op(gs[k], rs[k], ss[k], RunOp::Battle(acts[k]))
}

/// The agent raids a base (carrying the baseline spells and `acquired`) until the base
/// falls, the raider falls, or `budget` steps (at least one) were taken.
pub fn bot_raid(rows: &[&str], acquired: &[Spell], budget: usize) -> (r: RaidResult)
    requires
        playable(strs_of(rows@)),
        budget <= step_cap(),
    ensures
        r.steps <= if budget == 0 {
            1
        } else {
            budget
        },
        r.steps < budget ==> r.outcome == Status::RunComplete || r.outcome == Status::Defeat || r.outcome
            == Status::PickOffered,
        exists|acts: Seq<Action>, gs: Seq<GameState>, rs: Seq<RunState>, ss: Seq<Status>|
            #[trigger] raid_trace(strs_of(rows@), acquired@, acts, gs, rs, ss) && acts.len() == r.steps && ss.last()
                == r.outcome,
{
    let mut g = init_base(rows);
    let mut run = RunState::new(0);
    run.acquired = copy_spells(acquired);
    let mut status = Status::AwaitingInput;
    let mut steps: usize = 0;
    let ghost mut acts: Seq<Action> = Seq::empty();
    let ghost mut gs: Seq<GameState> = seq![g];
    let ghost mut rs: Seq<RunState> = seq![run];
    let ghost mut ss: Seq<Status> = seq![status];
    proof {
        assert(raid_trace(strs_of(rows@), acquired@, acts, gs, rs, ss));
    }
    while status == Status::AwaitingInput || status == Status::AwaitingRelease
        invariant_except_break
            steps == 0 || steps < budget,
        invariant
            raid_trace(strs_of(rows@), acquired@, acts, gs, rs, ss),
            acts.len() == steps,
            gs.last() == g,
            rs.last() == run,
            ss.last() == status,
            turn_ok(g),
            clocks_within(g, steps as int),
            budget <= step_cap(),
        ensures
            steps <= if budget == 0 {
                1
            } else {
                budget
            },
            steps < budget ==> status == Status::RunComplete || status == Status::Defeat || status
                == Status::PickOffered,
        decreases budget - steps,
    {
        proof {
            lemma_clocks_room(g, steps as int);
        }
        let a = if status == Status::AwaitingRelease {
            Action::Wait
        } else {
            choose_action(&g, &run)
        };
        let ghost g0 = g;
        let ghost (gp, rp, sp) = (g, run, status);
        let res = step(&mut g, &mut run, a);
        proof {
            lemma_clocks_step(g0, g, steps as int);
        }
        status = res.status;
        steps = steps + 1;
        proof {
            reveal(op_leads);
            reveal(agent_op);
            assert(step_post(gp, rp, a, g, run, res.events@, status, res.rejected));
            let (a2, g2, r2, s2) = (acts.push(a), gs.push(g), rs.push(run), ss.push(status));
            assert forall|k: int| 0 <= k < a2.len() implies #[trigger] op_leads(g2[k], r2[k], s2[k], RunOp::Battle(a2[k]), g2[k + 1], r2[k + 1], s2[k + 1])
                && agent_op(g2[k], r2[k], s2[k], RunOp::Battle(a2[k])) by {
                if k < acts.len() {
                    assert(op_leads(gs[k], rs[k], ss[k], RunOp::Battle(acts[k]), gs[k + 1], rs[k + 1], ss[k + 1]));
                }
            }
            acts = a2;
            gs = g2;
            rs = r2;
            ss = s2;
        }
        if steps >= budget {
            break;
        }
    }
    RaidResult { outcome: status, steps }
}

} // verus!

verus! {

/// The legality check of a spell reads the same in battles with the same content.
proof fn lemma_validate_same(spell: Spell, g: GameState, g_: GameState, t: Target)
    requires
        same_state(g, g_),
        g.grids_ok(),
        g.entities@.len() > 0,
    ensures
        validate_spec(spell, g, t) == validate_spec(spell, g_, t),
{
    crate::determinism::lemma_mage_spec_same(g, g_);
    crate::determinism::lemma_mi_range(g.entities@);
    let m = g.mage_spec();
    let (mx, my) = (m.x as int, m.y as int);
    let (tx, ty) = (t.x as int, t.y as int);
    crate::determinism::lemma_enemy_at_same(g.entities@, g_.entities@, tx, ty);
    crate::determinism::lemma_at(g, g_, tx, ty);
    crate::determinism::lemma_los_same(g, g_, mx, my, tx, ty);
    match crate::spells::enemy_at_spec(g, tx, ty) {
        Some(e) => {
            assert(crate::determinism::same_ent(g.entities@[e], g_.entities@[e]));
            crate::determinism::lemma_los_same(g, g_, mx, my, g.entities@[e].x as int, g.entities@[e].y as int);
        },
        None => {},
    }
}

proof fn lemma_toward_agent_same(g: GameState, g_: GameState, sx: int, sy: int, tx: int, ty: int)
    requires
        same_state(g, g_),
        g.grids_ok(),
    ensures
        toward(g, sx, sy, tx, ty) == toward(g_, sx, sy, tx, ty),
{
    crate::determinism::lemma_reads_alike(g, g_);
    crate::movement::lemma_astar_alike(g, g_, sx, sy, tx, ty);
    match astar_path(g, sx, sy, tx, ty) {
        Some(p) => {
            if p.len() > 0 {
                crate::determinism::lemma_at(g, g_, p[0].0 as int, p[0].1 as int);
            }
        },
        None => {},
    }
}

proof fn lemma_push_look_same(
    g: GameState,
    g_: GameState,
    mx: int,
    my: int,
    e: Entity,
    e_: Entity,
    k: int,
    allow: bool,
    st: (Option<Action>, Option<((i32, i32), int)>),
)
    requires
        same_state(g, g_),
        g.grids_ok(),
        g.entities@.len() > 0,
        e.x == e_.x,
        e.y == e_.y,
    ensures
        push_look(g, mx, my, e, k, allow, st) == push_look(g_, mx, my, e_, k, allow, st),
{
    let (dx, dy) = dir8_spec(k);
    let (hx, hy) = (e.x + dx, e.y + dy);
    let (px, py) = (e.x - dx, e.y - dy);
    crate::determinism::lemma_at(g, g_, hx, hy);
    crate::determinism::lemma_at(g, g_, px, py);
    assert(at(e) == at(e_));
    lemma_validate_same(Spell::Push, g, g_, at(e));
    crate::determinism::lemma_reads_alike(g, g_);
    crate::movement::lemma_astar_alike(g, g_, mx, my, px, py);
}

proof fn lemma_push_look_upto_same(
    g: GameState,
    g_: GameState,
    mx: int,
    my: int,
    e: Entity,
    e_: Entity,
    allow: bool,
    st: (Option<Action>, Option<((i32, i32), int)>),
    k: int,
)
    requires
        same_state(g, g_),
        g.grids_ok(),
        g.entities@.len() > 0,
        e.x == e_.x,
        e.y == e_.y,
    ensures
        push_look_upto(g, mx, my, e, allow, st, k) == push_look_upto(g_, mx, my, e_, allow, st, k),
    decreases k,
{
    if k > 0 {
        lemma_push_look_upto_same(g, g_, mx, my, e, e_, allow, st, k - 1);
        lemma_push_look_same(g, g_, mx, my, e, e_, k - 1, allow, push_look_upto(g, mx, my, e, allow, st, k - 1));
    }
}

proof fn lemma_push_scan_same(g: GameState, g_: GameState, mx: int, my: int, foes: Seq<usize>, allow: bool, n: int)
    requires
        same_state(g, g_),
        g.grids_ok(),
        g.entities@.len() > 0,
        n <= foes.len(),
        forall|k: int| 0 <= k < foes.len() ==> (#[trigger] foes[k]) < g.entities@.len(),
    ensures
        push_scan(g, mx, my, foes, allow, n) == push_scan(g_, mx, my, foes, allow, n),
    decreases n,
{
    if n > 0 {
        lemma_push_scan_same(g, g_, mx, my, foes, allow, n - 1);
        let i = foes[n - 1] as int;
        assert(crate::determinism::same_ent(g.entities@[i], g_.entities@[i]));
        lemma_push_look_upto_same(g, g_, mx, my, g.entities@[i], g_.entities@[i], allow, push_scan(g, mx, my, foes, allow, n - 1), 8);
    }
}

proof fn lemma_hook_pick_same(g: GameState, g_: GameState, foes: Seq<usize>, n: int)
    requires
        same_state(g, g_),
        g.grids_ok(),
        g.entities@.len() > 0,
        n <= foes.len(),
        forall|k: int| 0 <= k < foes.len() ==> (#[trigger] foes[k]) < g.entities@.len(),
    ensures
        hook_pick(g, foes, n) == hook_pick(g_, foes, n),
    decreases n,
{
    if n > 0 {
        lemma_hook_pick_same(g, g_, foes, n - 1);
        crate::determinism::lemma_mage_spec_same(g, g_);
        let i = foes[n - 1] as int;
        assert(crate::determinism::same_ent(g.entities@[i], g_.entities@[i]));
        let m = g.mage_spec();
        let e = g.entities@[i];
        let sx = e.x + sign_spec(m.x - e.x);
        let sy = e.y + sign_spec(m.y - e.y);
        crate::determinism::lemma_at(g, g_, sx, sy);
        lemma_validate_same(Spell::Hook, g, g_, at(e));
    }
}

proof fn lemma_bolt_pick_same(g: GameState, g_: GameState, foes: Seq<usize>, n: int)
    requires
        same_state(g, g_),
        g.grids_ok(),
        g.entities@.len() > 0,
        n <= foes.len(),
        forall|k: int| 0 <= k < foes.len() ==> (#[trigger] foes[k]) < g.entities@.len(),
    ensures
        bolt_pick(g, foes, n) == bolt_pick(g_, foes, n),
        bolt_pick(g, foes, n) matches Some(c) ==> c < g.entities@.len(),
    decreases n,
{
    if n > 0 {
        lemma_bolt_pick_same(g, g_, foes, n - 1);
        crate::determinism::lemma_mage_spec_same(g, g_);
        let i = foes[n - 1] as int;
        assert(crate::determinism::same_ent(g.entities@[i], g_.entities@[i]));
        lemma_validate_same(Spell::Bolt, g, g_, at(g.entities@[i]));
        match bolt_pick(g, foes, n - 1) {
            Some(c) => {
                assert(crate::determinism::same_ent(g.entities@[c as int], g_.entities@[c as int]));
            },
            None => {},
        }
    }
}

proof fn lemma_nearest_same(g: GameState, g_: GameState, foes: Seq<usize>, n: int)
    requires
        same_state(g, g_),
        g.entities@.len() > 0,
        1 <= n <= foes.len(),
        forall|k: int| 0 <= k < foes.len() ==> (#[trigger] foes[k]) < g.entities@.len(),
    ensures
        nearest(g, foes, n) == nearest(g_, foes, n),
        nearest(g, foes, n) < g.entities@.len(),
    decreases n,
{
    reveal(nearest);
    if n > 1 {
        lemma_nearest_same(g, g_, foes, n - 1);
        crate::determinism::lemma_mage_spec_same(g, g_);
        let i = foes[n - 1] as int;
        let b = nearest(g, foes, n - 1) as int;
        assert(crate::determinism::same_ent(g.entities@[i], g_.entities@[i]));
        assert(crate::determinism::same_ent(g.entities@[b], g_.entities@[b]));
    } else {
        assert(foes[0] < g.entities@.len());
    }
}

proof fn lemma_foes_same(s: Seq<Entity>, u: Seq<Entity>, n: int)
    requires
        crate::determinism::same_ents(s, u),
        n <= s.len(),
    ensures
        foe_indices(s, n) == foe_indices(u, n),
    decreases n,
{
    if n > 0 {
        lemma_foes_same(s, u, n - 1);
        assert(crate::determinism::same_ent(s[n - 1], u[n - 1]));
    }
}

/// The agent makes the same choice in battles and runs with the same content.
pub proof fn law_agent_choice_same(g: GameState, run: RunState, g_: GameState, run_: RunState)
    requires
        crate::turn_ok(g),
        same_state(g, g_),
        same_run(run, run_),
    ensures
        agent_choice(g, run) == agent_choice(g_, run_),
{
    let s = g.entities@;
    let u = g_.entities@;
    lemma_first_index(s, mage_pred());
    crate::determinism::lemma_mage_spec_same(g, g_);
    lemma_foes_same(s, u, s.len() as int);
    lemma_foe_indices(s, s.len() as int);
    let foes = foe_indices(s, s.len() as int);
    let m = g.mage_spec();
    assert(owns(run, Spell::Push) == owns(run_, Spell::Push));
    assert(owns(run, Spell::Hook) == owns(run_, Spell::Hook));
    assert(owns(run, Spell::Fire) == owns(run_, Spell::Fire));
    if foes.len() > 0 {
        assert forall|i: int| 0 <= i < s.len() implies (boss_foe_pred())(#[trigger] s[i]) == (boss_foe_pred())(u[i]) by {
            assert(crate::determinism::same_ent(s[i], u[i]));
        }
        crate::determinism::lemma_first_index_same(s, u, boss_foe_pred());
        lemma_first_index(s, boss_foe_pred());
        match boss_foe(s) {
            Some(b) => {
                assert(crate::determinism::same_ent(s[b], u[b]));
                lemma_validate_same(Spell::Bolt, g, g_, at(s[b]));
                lemma_validate_same(Spell::Fire, g, g_, at(s[b]));
                lemma_toward_agent_same(g, g_, m.x as int, m.y as int, s[b].x as int, s[b].y as int);
            },
            None => {
                lemma_push_scan_same(g, g_, m.x as int, m.y as int, foes, true, foes.len() as int);
                lemma_push_scan_same(g, g_, m.x as int, m.y as int, foes, false, foes.len() as int);
                assert(threatened(g, foes) == threatened(g_, foes)) by {
                    if threatened(g, foes) {
                        let k = choose|k: int| 0 <= k < foes.len() && cheb_spec(m.x as int, m.y as int, s[#[trigger] foes[k] as int].x as int, s[foes[k] as int].y as int) == 1;
                        assert(crate::determinism::same_ent(s[foes[k] as int], u[foes[k] as int]));
                    }
                    if threatened(g_, foes) {
                        let m_ = g_.mage_spec();
                        let k = choose|k: int| 0 <= k < foes.len() && cheb_spec(m_.x as int, m_.y as int, u[#[trigger] foes[k] as int].x as int, u[foes[k] as int].y as int) == 1;
                        assert(crate::determinism::same_ent(s[foes[k] as int], u[foes[k] as int]));
                    }
                }
                let allow = !threatened(g, foes);
                let st = push_scan(g, m.x as int, m.y as int, foes, allow, foes.len() as int);
                match st.1 {
                    Some(b) => lemma_toward_agent_same(g, g_, m.x as int, m.y as int, b.0.0 as int, b.0.1 as int),
                    None => {},
                }
                lemma_hook_pick_same(g, g_, foes, foes.len() as int);
                lemma_bolt_pick_same(g, g_, foes, foes.len() as int);
                match bolt_pick(g, foes, foes.len() as int) {
                    Some(b) => {
                        assert(crate::determinism::same_ent(s[b as int], u[b as int]));
                    },
                    None => {},
                }
                lemma_nearest_same(g, g_, foes, foes.len() as int);
                let nn = nearest(g, foes, foes.len() as int) as int;
                assert(crate::determinism::same_ent(s[nn], u[nn]));
                lemma_toward_agent_same(g, g_, m.x as int, m.y as int, s[nn].x as int, s[nn].y as int);
            },
        }
    }
}

} // verus!
