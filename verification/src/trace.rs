//! A step-by-step JSON trace of one agent run: an `init` entry, then one entry per
//! battle operation and per move to the next room, each with the observable state after
//! it (clocks left out), for comparing runs across front ends.
use crate::config::ROOM_COUNT;
use crate::events::Status;
use crate::harness::{
    agent_op, battles, choose_action, choose_pick, clocks_within, driving, lemma_battles_push, lemma_clocks_room,
    lemma_clocks_step, lemma_trace_push, op_leads, run_trace, step_cap, RunOp,
};
use crate::render::{fire_text, int_dec, joined, lemma_join_step, push_fire, push_int, push_nat, push_sep, push_text, sep_of};
use crate::roguelite::{apply_drop, apply_pick, dropped, gen_offers, init_room, picked, PickResult, RunState};
use crate::spells::{id_sorted, spell_name, Spell};
use crate::state::{is_alive, Entity, GameState, Kind, Tile};
use crate::{step, step_post, Action};
use vstd::prelude::*;
use vstd::string::StringSliceAdditionalSpecFns;
use vstd::utf8::encode_utf8;

verus! {

/// Name of a status in the trace.
pub open spec fn status_name(s: Status) -> Seq<u8> {
    match s {
        Status::AwaitingInput => "input".spec_bytes(),
        Status::AwaitingRelease => "release".spec_bytes(),
        Status::PickOffered => "pick".spec_bytes(),
        Status::RunComplete => "complete".spec_bytes(),
        Status::Defeat => "defeat".spec_bytes(),
    }
}

/// Name of a tile in the trace.
pub open spec fn tile_name(t: Tile) -> Seq<u8> {
    match t {
        Tile::Floor => "floor".spec_bytes(),
        Tile::Wall => "wall".spec_bytes(),
        Tile::Wood => "wood".spec_bytes(),
        Tile::WoodBurn => "woodburn".spec_bytes(),
        Tile::Oil => "oil".spec_bytes(),
        Tile::Spike => "spike".spec_bytes(),
        Tile::Rune => "rune".spec_bytes(),
    }
}

/// The text id of a spell, quoted.
pub open spec fn quoted_id(s: Spell) -> Seq<u8> {
    "\"".spec_bytes() + encode_utf8(spell_name(s)) + "\"".spec_bytes()
}

/// Name of a kind in the trace.
pub open spec fn kind_name(k: Kind) -> Seq<u8> {
    crate::render::kind_text(k)
}

/// The indices of the alive entities among the first `n`, in order.
pub open spec fn alive_idx(s: Seq<Entity>, n: int) -> Seq<usize>
    decreases n,
{
    if n <= 0 {
        Seq::empty()
    } else if is_alive(s[n - 1]) {
        alive_idx(s, n - 1).push((n - 1) as usize)
    } else {
        alive_idx(s, n - 1)
    }
}

/// One unit in the trace: id, kind, position and hit points.
pub open spec fn unit_text(e: Entity) -> Seq<u8> {
    "{\"id\":".spec_bytes() + int_dec(e.id as int) + ",\"k\":\"".spec_bytes() + kind_name(e.kind)
        + "\",\"x\":".spec_bytes() + int_dec(e.x as int) + ",\"y\":".spec_bytes() + int_dec(e.y as int)
        + ",\"hp\":".spec_bytes() + int_dec(e.hp as int) + "}".spec_bytes()
}

/// A row of tile names.
pub open spec fn name_row(r: Seq<Tile>) -> Seq<u8> {
    "[".spec_bytes() + joined(r.map_values(|t: Tile| "\"".spec_bytes() + tile_name(t) + "\"".spec_bytes()))
        + "]".spec_bytes()
}

/// The observable state: status, room, potions, the hand with its tiers, the alive units
/// by id (equal ids in entity order), the fire grid and the tile names.
pub open spec fn state_text(g: GameState, run: RunState, st: Status) -> Seq<u8> {
    "\"status\":\"".spec_bytes() + status_name(st) + "\",\"room\":".spec_bytes() + int_dec(run.room_idx as int)
        + ",\"potions\":".spec_bytes() + int_dec(run.potions as int) + ",\"acquired\":[".spec_bytes() + joined(
        run.acquired@.map_values(|sp: Spell| quoted_id(sp)),
    ) + "],\"tiers\":{".spec_bytes() + joined(
        run.acquired@.map_values(
            |sp: Spell| quoted_id(sp) + ":".spec_bytes() + int_dec(run.tiers.tier_by_name(spell_name(sp)) as int),
        ),
    ) + "},\"ents\":[".spec_bytes() + joined(
        id_sorted(g, alive_idx(g.entities@, g.entities@.len() as int)).map_values(
            |i: usize| unit_text(g.entities@[i as int]),
        ),
    ) + "],\"fire\":[".spec_bytes() + fire_text(g) + "],\"tiles\":[".spec_bytes() + joined(
        g.tiles@.map_values(|r: Vec<Tile>| name_row(r@)),
    ) + "]".spec_bytes()
}

/// An action as an operation object.
pub open spec fn action_text(a: Action) -> Seq<u8> {
    match a {
        Action::Wait => "{\"op\":\"wait\"}".spec_bytes(),
        Action::Potion => "{\"op\":\"potion\"}".spec_bytes(),
        Action::Release => "{\"op\":\"release\"}".spec_bytes(),
        Action::MoveTo { x, y } => "{\"op\":\"move\",\"x\":".spec_bytes() + int_dec(x as int) + ",\"y\":".spec_bytes()
            + int_dec(y as int) + "}".spec_bytes(),
        Action::Cast { spell, target } => "{\"op\":\"cast\",\"spell\":".spec_bytes() + quoted_id(spell)
            + ",\"x\":".spec_bytes() + int_dec(target.x as int) + ",\"y\":".spec_bytes() + int_dec(target.y as int)
            + "}".spec_bytes(),
    }
}

/// One entry: the operation and the state after it.
pub open spec fn entry_text(op: Seq<u8>, g: GameState, run: RunState, st: Status) -> Seq<u8> {
    "{\"op\":".spec_bytes() + op + ",".spec_bytes() + state_text(g, run, st) + "}".spec_bytes()
}

/// The entries of a run traced through `ops` (see `run_trace`): `init`, then one per
/// battle operation and one per `NextRoom`, of the first `n` operations.
pub open spec fn trace_entries(
    ops: Seq<RunOp>,
    gs: Seq<GameState>,
    rs: Seq<RunState>,
    ss: Seq<Status>,
    n: int,
) -> Seq<Seq<u8>>
    decreases n,
{
    if n <= 0 {
        seq![entry_text("{\"op\":\"init\"}".spec_bytes(), gs[0], rs[0], ss[0])]
    } else {
        let e = trace_entries(ops, gs, rs, ss, n - 1);
        match ops[n - 1] {
            RunOp::Battle(a) => e.push(entry_text(action_text(a), gs[n], rs[n], ss[n])),
            RunOp::NextRoom => e.push(entry_text("{\"op\":\"nextroom\"}".spec_bytes(), gs[n], rs[n], ss[n])),
            _ => e,
        }
    }
}

/// The trace of the agent's run from `seed`: `{"seed":..,"steps":[entries]}`.
pub open spec fn trace_text(seed: u32, ops: Seq<RunOp>, gs: Seq<GameState>, rs: Seq<RunState>, ss: Seq<Status>) -> Seq<u8> {
    "{\"seed\":".spec_bytes() + int_dec(seed as int) + ",\"steps\":[".spec_bytes() + joined(
        trace_entries(ops, gs, rs, ss, ops.len() as int),
    ) + "]}".spec_bytes()
}

fn push_status(out: &mut Vec<u8>, s: Status)
    ensures
        final(out)@ == old(out)@ + status_name(s),
{
    match s {
        Status::AwaitingInput => push_text(out, "input"),
        Status::AwaitingRelease => push_text(out, "release"),
        Status::PickOffered => push_text(out, "pick"),
        Status::RunComplete => push_text(out, "complete"),
        Status::Defeat => push_text(out, "defeat"),
    }
}

fn push_quoted_id(out: &mut Vec<u8>, sp: Spell)
    ensures
        final(out)@ == old(out)@ + quoted_id(sp),
{
    let ghost o0 = out@;
    push_text(out, "\"");
    push_text(out, sp.id());
    push_text(out, "\"");
    proof {
        assert(out@ =~= o0 + quoted_id(sp));
    }
}

fn push_ids(out: &mut Vec<u8>, run: &RunState)
    ensures
        final(out)@ == old(out)@ + joined(run.acquired@.map_values(|sp: Spell| quoted_id(sp))),
{
    let ghost parts = run.acquired@.map_values(|sp: Spell| quoted_id(sp));
    let ghost base = out@;
    let mut i: usize = 0;
    proof {
        assert(parts.take(0) =~= Seq::<Seq<u8>>::empty());
        assert(out@ =~= base + joined(parts.take(0)));
    }
    while i < run.acquired.len()
        invariant
            i <= run.acquired@.len(),
            parts == run.acquired@.map_values(|sp: Spell| quoted_id(sp)),
            out@ == base + joined(parts.take(i as int)),
        decreases run.acquired@.len() - i,
    {
        push_sep(out, i);
        push_quoted_id(out, run.acquired[i]);
        proof {
            lemma_join_step(base, parts, i as int, sep_of(i as int), out@);
        }
        i = i + 1;
    }
    proof {
        assert(parts.take(run.acquired@.len() as int) =~= parts);
    }
}

fn push_id_tiers(out: &mut Vec<u8>, run: &RunState)
    ensures
        final(out)@ == old(out)@ + joined(
            run.acquired@.map_values(
                |sp: Spell| quoted_id(sp) + ":".spec_bytes() + int_dec(run.tiers.tier_by_name(spell_name(sp)) as int),
            ),
        ),
{
    let ghost parts = run.acquired@.map_values(
        |sp: Spell| quoted_id(sp) + ":".spec_bytes() + int_dec(run.tiers.tier_by_name(spell_name(sp)) as int),
    );
    let ghost base = out@;
    let mut i: usize = 0;
    proof {
        assert(parts.take(0) =~= Seq::<Seq<u8>>::empty());
        assert(out@ =~= base + joined(parts.take(0)));
    }
    while i < run.acquired.len()
        invariant
            i <= run.acquired@.len(),
            parts == run.acquired@.map_values(
                |sp: Spell| quoted_id(sp) + ":".spec_bytes() + int_dec(run.tiers.tier_by_name(spell_name(sp)) as int),
            ),
            out@ == base + joined(parts.take(i as int)),
        decreases run.acquired@.len() - i,
    {
        let sp = run.acquired[i];
        push_sep(out, i);
        let ghost o1 = out@;
        push_quoted_id(out, sp);
        push_text(out, ":");
        push_nat(out, run.tiers.of(sp.id()) as u64);
        proof {
            assert(out@ =~= o1 + parts[i as int]);
            lemma_join_step(base, parts, i as int, sep_of(i as int), out@);
        }
        i = i + 1;
    }
    proof {
        assert(parts.take(run.acquired@.len() as int) =~= parts);
    }
}

/// The indices of the alive entities, in order.
fn alive_indices(g: &GameState) -> (r: Vec<usize>)
    ensures
        r@ == alive_idx(g.entities@, g.entities@.len() as int),
        forall|k: int| 0 <= k < r@.len() ==> #[trigger] r@[k] < g.entities@.len(),
{
    let mut out: Vec<usize> = Vec::new();
    let mut i: usize = 0;
    while i < g.entities.len()
        invariant
            i <= g.entities@.len(),
            out@ == alive_idx(g.entities@, i as int),
            forall|k: int| 0 <= k < out@.len() ==> #[trigger] out@[k] < i,
        decreases g.entities@.len() - i,
    {
        if g.entities[i].alive() {
            out.push(i);
        }
        i = i + 1;
    }
    out
}

/// `v` in id order, equal ids keeping their order (see `id_sorted`).
fn sort_by_id(g: &GameState, v: &Vec<usize>) -> (r: Vec<usize>)
    requires
        forall|k: int| 0 <= k < v@.len() ==> #[trigger] v@[k] < g.entities@.len(),
    ensures
        r@ == id_sorted(*g, v@),
        forall|k: int| 0 <= k < r@.len() ==> #[trigger] r@[k] < g.entities@.len(),
{
    let mut sorted: Vec<usize> = Vec::new();
    let mut i: usize = 0;
    proof {
        assert(v@.take(0) =~= Seq::<usize>::empty());
    }
    while i < v.len()
        invariant
            i <= v@.len(),
            forall|m: int| 0 <= m < v@.len() ==> #[trigger] v@[m] < g.entities@.len(),
            forall|m: int| 0 <= m < sorted@.len() ==> #[trigger] sorted@[m] < g.entities@.len(),
            sorted@ == id_sorted(*g, v@.take(i as int)),
            sorted@.len() == i,
        decreases v@.len() - i,
    {
        let x = v[i];
        let idv = g.entities[x].id;
        let mut pos: usize = sorted.len();
        while pos > 0 && g.entities[sorted[pos - 1]].id > idv
            invariant
                pos <= sorted@.len(),
                x < g.entities@.len(),
                idv == g.entities@[x as int].id,
                forall|m: int| 0 <= m < sorted@.len() ==> #[trigger] sorted@[m] < g.entities@.len(),
                crate::spells::id_slot(*g, sorted@, idv, pos as int) == crate::spells::id_slot(
                    *g,
                    sorted@,
                    idv,
                    sorted@.len() as int,
                ),
            decreases pos,
        {
            pos = pos - 1;
        }
        let ghost before = sorted@;
        sorted.insert(pos, x);
        proof {
            assert(v@.take(i as int + 1).drop_last() =~= v@.take(i as int));
            assert(v@.take(i as int + 1).last() == x);
            assert(crate::spells::id_slot(*g, before, idv, before.len() as int) == pos);
            assert forall|m: int| 0 <= m < sorted@.len() implies #[trigger] sorted@[m] < g.entities@.len() by {
                if m < pos {
                    assert(sorted@[m] == before[m]);
                } else if m > pos {
                    assert(sorted@[m] == before[m - 1]);
                }
            }
        }
        i = i + 1;
    }
    proof {
        assert(v@.take(v@.len() as int) =~= v@);
    }
    sorted
}

fn push_unit(out: &mut Vec<u8>, e: &Entity)
    ensures
        final(out)@ == old(out)@ + unit_text(*e),
{
    let mut t: Vec<u8> = Vec::new();
    push_text(&mut t, "{\"id\":");
    assert(t@ =~= "{\"id\":".spec_bytes());
    push_nat(&mut t, e.id as u64);
    push_text(&mut t, ",\"k\":\"");
    crate::render::push_kind(&mut t, e.kind);
    push_text(&mut t, "\",\"x\":");
    push_int(&mut t, e.x as i64);
    push_text(&mut t, ",\"y\":");
    push_int(&mut t, e.y as i64);
    push_text(&mut t, ",\"hp\":");
    push_int(&mut t, e.hp as i64);
    push_text(&mut t, "}");
    out.append(&mut t);
}

fn push_units(out: &mut Vec<u8>, g: &GameState)
    ensures
        final(out)@ == old(out)@ + joined(
            id_sorted(*g, alive_idx(g.entities@, g.entities@.len() as int)).map_values(
                |i: usize| unit_text(g.entities@[i as int]),
            ),
        ),
{
    let alive = alive_indices(g);
    let order = sort_by_id(g, &alive);
    let ghost parts = order@.map_values(|i: usize| unit_text(g.entities@[i as int]));
    let ghost base = out@;
    let mut i: usize = 0;
    proof {
        assert(parts.take(0) =~= Seq::<Seq<u8>>::empty());
        assert(out@ =~= base + joined(parts.take(0)));
    }
    while i < order.len()
        invariant
            i <= order@.len(),
            forall|k: int| 0 <= k < order@.len() ==> #[trigger] order@[k] < g.entities@.len(),
            parts == order@.map_values(|i: usize| unit_text(g.entities@[i as int])),
            out@ == base + joined(parts.take(i as int)),
        decreases order@.len() - i,
    {
        push_sep(out, i);
        push_unit(out, &g.entities[order[i]]);
        proof {
            lemma_join_step(base, parts, i as int, sep_of(i as int), out@);
        }
        i = i + 1;
    }
    proof {
        assert(parts.take(order@.len() as int) =~= parts);
    }
}

fn push_name_row(out: &mut Vec<u8>, row: &Vec<Tile>)
    ensures
        final(out)@ == old(out)@ + name_row(row@),
{
    let ghost parts = row@.map_values(|t: Tile| "\"".spec_bytes() + tile_name(t) + "\"".spec_bytes());
    push_text(out, "[");
    let ghost base = out@;
    let mut i: usize = 0;
    proof {
        assert(parts.take(0) =~= Seq::<Seq<u8>>::empty());
        assert(out@ =~= base + joined(parts.take(0)));
    }
    while i < row.len()
        invariant
            i <= row@.len(),
            parts == row@.map_values(|t: Tile| "\"".spec_bytes() + tile_name(t) + "\"".spec_bytes()),
            out@ == base + joined(parts.take(i as int)),
        decreases row@.len() - i,
    {
        push_sep(out, i);
        let ghost o1 = out@;
        push_text(out, "\"");
        match row[i] {
            Tile::Floor => push_text(out, "floor"),
            Tile::Wall => push_text(out, "wall"),
            Tile::Wood => push_text(out, "wood"),
            Tile::WoodBurn => push_text(out, "woodburn"),
            Tile::Oil => push_text(out, "oil"),
            Tile::Spike => push_text(out, "spike"),
            Tile::Rune => push_text(out, "rune"),
        }
        push_text(out, "\"");
        proof {
            assert(out@ =~= o1 + parts[i as int]);
            lemma_join_step(base, parts, i as int, sep_of(i as int), out@);
        }
        i = i + 1;
    }
    proof {
        assert(parts.take(row@.len() as int) =~= parts);
    }
    push_text(out, "]");
}

fn push_tile_names(out: &mut Vec<u8>, g: &GameState)
    ensures
        final(out)@ == old(out)@ + joined(g.tiles@.map_values(|r: Vec<Tile>| name_row(r@))),
{
    let ghost parts = g.tiles@.map_values(|r: Vec<Tile>| name_row(r@));
    let ghost base = out@;
    let mut y: usize = 0;
    proof {
        assert(parts.take(0) =~= Seq::<Seq<u8>>::empty());
        assert(out@ =~= base + joined(parts.take(0)));
    }
    while y < g.tiles.len()
        invariant
            y <= g.tiles@.len(),
            parts == g.tiles@.map_values(|r: Vec<Tile>| name_row(r@)),
            out@ == base + joined(parts.take(y as int)),
        decreases g.tiles@.len() - y,
    {
        push_sep(out, y);
        push_name_row(out, &g.tiles[y]);
        proof {
            lemma_join_step(base, parts, y as int, sep_of(y as int), out@);
        }
        y = y + 1;
    }
    proof {
        assert(parts.take(g.tiles@.len() as int) =~= parts);
    }
}

fn push_state(out: &mut Vec<u8>, g: &GameState, run: &RunState, st: Status)
    ensures
        final(out)@ == old(out)@ + state_text(*g, *run, st),
{
    let mut t: Vec<u8> = Vec::new();
    push_text(&mut t, "\"status\":\"");
    assert(t@ =~= "\"status\":\"".spec_bytes());
    push_status(&mut t, st);
    push_text(&mut t, "\",\"room\":");
    push_nat(&mut t, run.room_idx as u64);
    push_text(&mut t, ",\"potions\":");
    push_nat(&mut t, run.potions as u64);
    push_text(&mut t, ",\"acquired\":[");
    push_ids(&mut t, run);
    push_text(&mut t, "],\"tiers\":{");
    push_id_tiers(&mut t, run);
    push_text(&mut t, "},\"ents\":[");
    push_units(&mut t, g);
    push_text(&mut t, "],\"fire\":[");
    push_fire(&mut t, g);
    push_text(&mut t, "],\"tiles\":[");
    push_tile_names(&mut t, g);
    push_text(&mut t, "]");
    out.append(&mut t);
}

fn push_action(out: &mut Vec<u8>, a: Action)
    ensures
        final(out)@ == old(out)@ + action_text(a),
{
    let ghost o0 = out@;
    match a {
        Action::Wait => push_text(out, "{\"op\":\"wait\"}"),
        Action::Potion => push_text(out, "{\"op\":\"potion\"}"),
        Action::Release => push_text(out, "{\"op\":\"release\"}"),
        Action::MoveTo { x, y } => {
            push_text(out, "{\"op\":\"move\",\"x\":");
            push_int(out, x as i64);
            push_text(out, ",\"y\":");
            push_int(out, y as i64);
            push_text(out, "}");
            proof {
                assert(out@ =~= o0 + action_text(a));
            }
        },
        Action::Cast { spell, target } => {
            push_text(out, "{\"op\":\"cast\",\"spell\":");
            push_quoted_id(out, spell);
            push_text(out, ",\"x\":");
            push_int(out, target.x as i64);
            push_text(out, ",\"y\":");
            push_int(out, target.y as i64);
            push_text(out, "}");
            proof {
                assert(out@ =~= o0 + action_text(a));
            }
        },
    }
}

/// Appends one entry: the operation `op` (already written as text) and the state.
fn push_entry(out: &mut Vec<u8>, op: &Vec<u8>, g: &GameState, run: &RunState, st: Status)
    ensures
        final(out)@ == old(out)@ + entry_text(op@, *g, *run, st),
{
    let ghost o0 = out@;
    push_text(out, "{\"op\":");
    let mut i: usize = 0;
    let ghost o1 = out@;
    while i < op.len()
        invariant
            i <= op@.len(),
            out@ == o1 + op@.take(i as int),
        decreases op@.len() - i,
    {
        out.push(op[i]);
        proof {
            assert(op@.take(i as int + 1) =~= op@.take(i as int).push(op@[i as int]));
            assert(out@ =~= o1 + op@.take(i as int + 1));
        }
        i = i + 1;
    }
    proof {
        assert(op@.take(op@.len() as int) =~= op@);
    }
    push_text(out, ",");
    let ghost o2 = out@;
    push_state(out, g, run, st);
    push_text(out, "}");
    proof {
        assert(out@ =~= o0 + entry_text(op@, *g, *run, st));
    }
}

proof fn lemma_entries_push(
    ops: Seq<RunOp>,
    gs: Seq<GameState>,
    rs: Seq<RunState>,
    ss: Seq<Status>,
    op: RunOp,
    g: GameState,
    run: RunState,
    st: Status,
    n: int,
)
    requires
        0 <= n <= ops.len(),
        gs.len() == ops.len() + 1,
        rs.len() == ops.len() + 1,
        ss.len() == ops.len() + 1,
    ensures
        trace_entries(ops.push(op), gs.push(g), rs.push(run), ss.push(st), n) == trace_entries(ops, gs, rs, ss, n),
    decreases n,
{
    if n > 0 {
        lemma_entries_push(ops, gs, rs, ss, op, g, run, st, n - 1);
    }
}

/// The operations of a traced run stop where the run stops: when it is won or lost, or
/// on the battle step that spends the budget (at least one step).
pub open spec fn run_stopped(ops: Seq<RunOp>, st: Status, budget: usize) -> bool {
    let cap: int = if budget == 0 {
        1
    } else {
        budget as int
    };
    &&& battles(ops) <= cap
    &&& st == Status::RunComplete || st == Status::Defeat || (battles(ops) == cap && ops.len() > 0
        && ops.last() is Battle)
}

/// Plays one run with the agent, as `play` does, and writes it as a trace: `init` (the
/// first room loaded, nothing done), then for every battle operation and every move to
/// the next room the operation and the observable state after it (see `trace_text`).
#[verifier::rlimit(100)]
pub fn trace_json(seed: u32, budget: usize) -> (r: Vec<u8>)
    requires
        budget <= step_cap(),
    ensures
        exists|ops: Seq<RunOp>, gs: Seq<GameState>, rs: Seq<RunState>, ss: Seq<Status>|
            #[trigger] run_trace(seed, ops, true, gs, rs, ss) && run_stopped(ops, ss.last(), budget) && r@
                == trace_text(seed, ops, gs, rs, ss),
{
    let mut run = RunState::new(seed);
    let mut g = init_room(0);
    let mut status = Status::AwaitingInput;
    let mut steps: usize = 0;
    let ghost mut room_steps: int = 0;
    let ghost mut ops: Seq<RunOp> = Seq::empty();
    let ghost mut gs: Seq<GameState> = seq![g];
    let ghost mut rs: Seq<RunState> = seq![run];
    let ghost mut ss: Seq<Status> = seq![status];
    let mut out: Vec<u8> = Vec::new();
    push_text(&mut out, "{\"seed\":");
    push_nat(&mut out, seed as u64);
    push_text(&mut out, ",\"steps\":[");
    let ghost base = out@;
    let mut op_text: Vec<u8> = Vec::new();
    push_text(&mut op_text, "{\"op\":\"init\"}");
    push_entry(&mut out, &op_text, &g, &run, status);
    let ghost mut parts: Seq<Seq<u8>> = seq![entry_text("{\"op\":\"init\"}".spec_bytes(), g, run, status)];
    proof {
        assert(run_trace(seed, ops, true, gs, rs, ss));
        assert(out@ =~= base + joined(parts));
        assert(parts =~= trace_entries(ops, gs, rs, ss, 0));
    }
    loop
        invariant_except_break
            steps == 0 || steps < budget,
        invariant
            run_trace(seed, ops, true, gs, rs, ss),
            gs.last() == g,
            rs.last() == run,
            ss.last() == status,
            steps == battles(ops),
            driving(g, run, status),
            forall|i: int| 0 <= i < run.op_log@.len() ==> crate::harness::op_room(#[trigger] run.op_log@[i]) < run.room_idx,
            crate::roguelite::hand_ok(run),
            0 <= room_steps <= steps,
            clocks_within(g, room_steps),
            budget <= step_cap(),
            parts == trace_entries(ops, gs, rs, ss, ops.len() as int),
            parts.len() > 0,
            out@ == base + joined(parts),
            base == "{\"seed\":".spec_bytes() + int_dec(seed as int) + ",\"steps\":[".spec_bytes(),
            ops.len() > 0 && steps == (if budget == 0 { 1 } else { budget as int }) ==> ops.last() is Battle,
        ensures
            steps <= if budget == 0 {
                1
            } else {
                budget
            },
            status == Status::RunComplete || status == Status::Defeat || (steps == (if budget == 0 {
                1
            } else {
                budget as int
            }) && ops.len() > 0 && ops.last() is Battle),
        decreases budget - steps, ROOM_COUNT - run.room_idx,
    {
        if status == Status::AwaitingInput || status == Status::AwaitingRelease {
            proof {
                lemma_clocks_room(g, room_steps);
            }
            let a = if status == Status::AwaitingRelease {
                Action::Wait
            } else {
                choose_action(&g, &run)
            };
            let ghost (gp, rp, sp) = (g, run, status);
            let ghost g0 = g;
            let res = step(&mut g, &mut run, a);
            proof {
                lemma_clocks_step(g0, g, room_steps);
                room_steps = room_steps + 1;
            }
            status = res.status;
            steps = steps + 1;
            op_text = Vec::new();
            push_action(&mut op_text, a);
            let ghost out0 = out@;
            push_text(&mut out, ",");
            push_entry(&mut out, &op_text, &g, &run, status);
            proof {
                reveal(op_leads);
                reveal(agent_op);
                let op = RunOp::Battle(a);
                assert(step_post(gp, rp, a, g, run, res.events@, status, res.rejected));
                assert(op_leads(gp, rp, sp, op, g, run, status));
                assert(agent_op(gp, rp, sp, op));
                lemma_trace_push(seed, ops, true, gs, rs, ss, op, g, run, status);
                lemma_entries_push(ops, gs, rs, ss, op, g, run, status, ops.len() as int);
                lemma_battles_push(ops, op);
                let e = entry_text(action_text(a), g, run, status);
                let p2 = parts.push(e);
                assert(p2.take(parts.len() as int) =~= parts);
                lemma_join_step(base, p2, parts.len() as int, ",".spec_bytes(), out@);
                assert(p2.take(p2.len() as int) =~= p2);
                ops = ops.push(op);
                gs = gs.push(g);
                rs = rs.push(run);
                ss = ss.push(status);
                parts = p2;
            }
            if steps >= budget {
                break;
            }
        } else if status == Status::PickOffered {
            let offers = gen_offers(&run);
            let ghost (gp, rp, sp) = (g, run, status);
            match choose_pick(offers.as_slice()) {
                Some(pick) => {
                    match apply_pick(&mut run, pick) {
                        PickResult::Done => {
                            proof {
                                reveal(op_leads);
                                reveal(agent_op);
                                let op = RunOp::Pick(pick);
                                assert(picked(rp, pick, run, PickResult::Done));
                                lemma_trace_push(seed, ops, true, gs, rs, ss, op, g, run, status);
                                lemma_entries_push(ops, gs, rs, ss, op, g, run, status, ops.len() as int);
                                lemma_battles_push(ops, op);
                                ops = ops.push(op);
                            }
                        },
                        PickResult::NeedDrop => {
                            proof {
                                assert(run.acquired@.len() > 0);
                            }
                            let drop = run.acquired[0];
                            apply_drop(&mut run, pick, drop);
                            proof {
                                reveal(op_leads);
                                reveal(agent_op);
                                let op = RunOp::Drop { take: pick, drop };
                                assert(dropped(rp, pick, drop, run));
                                lemma_trace_push(seed, ops, true, gs, rs, ss, op, g, run, status);
                                lemma_entries_push(ops, gs, rs, ss, op, g, run, status, ops.len() as int);
                                lemma_battles_push(ops, op);
                                ops = ops.push(op);
                            }
                        },
                    }
                    proof {
                        gs = gs.push(g);
                        rs = rs.push(run);
                        ss = ss.push(status);
                    }
                },
                None => {},
            }
            let ghost (gq, rq, sq) = (g, run, status);
            run.room_idx = run.room_idx + 1;
            g = init_room(run.room_idx);
            proof {
                room_steps = 0;
            }
            status = Status::AwaitingInput;
            op_text = Vec::new();
            push_text(&mut op_text, "{\"op\":\"nextroom\"}");
            push_text(&mut out, ",");
            push_entry(&mut out, &op_text, &g, &run, status);
            proof {
                reveal(op_leads);
                reveal(agent_op);
                let op = RunOp::NextRoom;
                assert(op_leads(gq, rq, sq, op, g, run, status));
                lemma_trace_push(seed, ops, true, gs, rs, ss, op, g, run, status);
                lemma_entries_push(ops, gs, rs, ss, op, g, run, status, ops.len() as int);
                lemma_battles_push(ops, op);
                let e = entry_text("{\"op\":\"nextroom\"}".spec_bytes(), g, run, status);
                let p2 = parts.push(e);
                assert(p2.take(parts.len() as int) =~= parts);
                lemma_join_step(base, p2, parts.len() as int, ",".spec_bytes(), out@);
                assert(p2.take(p2.len() as int) =~= p2);
                ops = ops.push(op);
                gs = gs.push(g);
                rs = rs.push(run);
                ss = ss.push(status);
                parts = p2;
            }
        } else {
            break;
        }
    }
    push_text(&mut out, "]}");
    proof {
        assert(out@ =~= trace_text(seed, ops, gs, rs, ss));
        assert(run_stopped(ops, ss.last(), budget));
    }
    out
}

} // verus!
