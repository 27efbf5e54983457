//! The battle as the page draws it: a JSON object with the board, the units, the golem's
//! announced cells, the run's spells and the coming turn order.
use crate::events::{Event, Status};
use crate::roguelite::{dec_spec, push_dec, RunState};
use crate::spells::{spell_name, Spell};
use crate::state::{first_index, is_alive, Entity, GameState, Kind, Tile};
use crate::{project_chain, proj_init, proj_slots, ChainSlot};
use vstd::prelude::*;
use vstd::string::StringSliceAdditionalSpecFns;

verus! {

/// Decimal text of an integer, with a minus sign when negative.
pub open spec fn int_dec(n: int) -> Seq<u8> {
    if n < 0 {
        seq![45u8] + dec_spec((-n) as nat)
    } else {
        dec_spec(n as nat)
    }
}

/// `true` or `false`.
pub open spec fn bool_text(b: bool) -> Seq<u8> {
    if b {
        "true".spec_bytes()
    } else {
        "false".spec_bytes()
    }
}

/// The parts separated by commas.
pub open spec fn joined(parts: Seq<Seq<u8>>) -> Seq<u8>
    decreases parts.len(),
{
    if parts.len() == 0 {
        Seq::empty()
    } else if parts.len() == 1 {
        parts[0]
    } else {
        joined(parts.drop_last()) + ",".spec_bytes() + parts.last()
    }
}

proof fn lemma_joined_push(parts: Seq<Seq<u8>>, i: int)
    requires
        0 <= i < parts.len(),
    ensures
        joined(parts.take(i + 1)) == joined(parts.take(i)) + (if i > 0 {
            ",".spec_bytes()
        } else {
            Seq::empty()
        }) + parts[i],
{
    assert(parts.take(i + 1).drop_last() =~= parts.take(i));
    if i == 0 {
        assert(joined(parts.take(1)) == parts.take(1)[0]);
        assert(Seq::<u8>::empty() + Seq::<u8>::empty() + parts[0] =~= parts[0]);
    }
}

/// Code of a tile on the page.
pub open spec fn tile_code(t: Tile) -> int {
    match t {
        Tile::Floor => 0,
        Tile::Wall => 1,
        Tile::Wood => 2,
        Tile::WoodBurn => 3,
        Tile::Oil => 4,
        Tile::Spike => 5,
        Tile::Rune => 6,
    }
}

/// Code of a spell on the page.
pub open spec fn page_code(s: Spell) -> int {
    match s {
        Spell::Bolt => 0,
        Spell::Push => 1,
        Spell::Fire => 2,
        Spell::Heavy => 3,
        Spell::OilFlask => 4,
        Spell::Hook => 5,
        Spell::Haste => 6,
    }
}

/// Code of a status on the page.
pub open spec fn status_code(s: Status) -> int {
    match s {
        Status::AwaitingInput => 0,
        Status::AwaitingRelease => 1,
        Status::PickOffered => 2,
        Status::RunComplete => 3,
        Status::Defeat => 4,
    }
}

/// Name of a kind on the page.
pub open spec fn kind_text(k: Kind) -> Seq<u8> {
    match k {
        Kind::Mage => "mage".spec_bytes(),
        Kind::Imp => "imp".spec_bytes(),
        Kind::Eye => "eye".spec_bytes(),
        Kind::Boss => "boss".spec_bytes(),
    }
}

/// A row of numbers: `[a,b,...]`.
pub open spec fn row_text(s: Seq<int>) -> Seq<u8> {
    "[".spec_bytes() + joined(s.map_values(|x: int| int_dec(x))) + "]".spec_bytes()
}

/// The tile rows.
pub open spec fn tiles_text(g: GameState) -> Seq<u8> {
    joined(g.tiles@.map_values(|r: Vec<Tile>| row_text(r@.map_values(|t: Tile| tile_code(t)))))
}

/// The fire rows.
pub open spec fn fire_text(g: GameState) -> Seq<u8> {
    joined(g.fire@.map_values(|r: Vec<i32>| row_text(r@.map_values(|v: i32| v as int))))
}

/// The alive entities, in order.
pub open spec fn alive_of(s: Seq<Entity>) -> Seq<Entity>
    decreases s.len(),
{
    if s.len() == 0 {
        Seq::empty()
    } else if is_alive(s.last()) {
        alive_of(s.drop_last()).push(s.last())
    } else {
        alive_of(s.drop_last())
    }
}

/// The units the page lists are exactly the alive ones: each listed unit has hit points
/// above zero, each unit with hit points above zero is listed, in the battle's order.
pub proof fn law_listed_units_alive(s: Seq<Entity>)
    ensures
        forall|k: int| 0 <= k < alive_of(s).len() ==> (#[trigger] alive_of(s)[k]).hp > 0,
        forall|i: int| 0 <= i < s.len() && s[i].hp > 0 ==> alive_of(s).contains(#[trigger] s[i]),
        forall|k: int| 0 <= k < alive_of(s).len() ==> s.contains(#[trigger] alive_of(s)[k]),
        alive_of(s) == s.filter(|e: Entity| e.hp > 0),
    decreases s.len(),
{
    reveal(Seq::filter);
    if s.len() > 0 {
        let q = s.drop_last();
        law_listed_units_alive(q);
        let a = alive_of(q);
        assert(q.filter(|e: Entity| e.hp > 0) == a);
        assert forall|i: int| 0 <= i < s.len() && s[i].hp > 0 implies alive_of(s).contains(#[trigger] s[i]) by {
            if i < s.len() - 1 {
                assert(q[i] == s[i]);
                let k = choose|k: int| 0 <= k < a.len() && a[k] == q[i];
                if s.last().hp > 0 {
                    assert(alive_of(s)[k] == a[k]);
                } else {
                    assert(alive_of(s)[k] == a[k]);
                }
            } else {
                assert(alive_of(s)[alive_of(s).len() - 1] == s.last());
            }
        }
        assert forall|k: int| 0 <= k < alive_of(s).len() implies s.contains(#[trigger] alive_of(s)[k]) by {
            if k < a.len() {
                assert(alive_of(s)[k] == a[k]);
                let j = choose|j: int| 0 <= j < q.len() && q[j] == a[k];
                assert(s[j] == q[j]);
            } else {
                assert(s[s.len() - 1] == s.last());
            }
        }
    }
}

/// One unit: id, kind, position, hit points, haste, charge (and whether it is ready)
/// and a pending slam.
pub open spec fn ent_text(e: Entity) -> Seq<u8> {
    "{\"id\":".spec_bytes() + int_dec(e.id as int) + ",\"k\":\"".spec_bytes() + kind_text(e.kind)
        + "\",\"x\":".spec_bytes() + int_dec(e.x as int) + ",\"y\":".spec_bytes() + int_dec(e.y as int)
        + ",\"hp\":".spec_bytes() + int_dec(e.hp as int) + ",\"max\":".spec_bytes() + int_dec(e.maxhp as int)
        + ",\"haste\":".spec_bytes() + int_dec(e.haste_turns as int) + ",\"ch\":".spec_bytes() + bool_text(
        e.channel is Some,
    ) + ",\"ready\":".spec_bytes() + bool_text(chan_ready(e)) + ",\"slam\":".spec_bytes()
        + bool_text(e.pending_slam) + "}".spec_bytes()
}

/// The unit's charge is ready.
pub open spec fn chan_ready(e: Entity) -> bool {
    e.channel matches Some(c) && c.ready
}

/// An alive golem.
pub open spec fn live_boss() -> spec_fn(Entity) -> bool {
    |e: Entity| e.kind == Kind::Boss && is_alive(e)
}

/// A cell: `[x,y]`.
pub open spec fn cell_text(c: (i32, i32)) -> Seq<u8> {
    "[".spec_bytes() + int_dec(c.0 as int) + ",".spec_bytes() + int_dec(c.1 as int) + "]".spec_bytes()
}

/// The cells the first alive golem announced for its slam, if it has one pending.
pub open spec fn slam_text(s: Seq<Entity>) -> Seq<u8> {
    match first_index(s, live_boss()) {
        Some(b) => if s[b].pending_slam {
            match s[b].slam {
                Some(cells) => joined(cells@.map_values(|c: (i32, i32)| cell_text(c))),
                None => Seq::empty(),
            }
        } else {
            Seq::empty()
        },
        None => Seq::empty(),
    }
}

/// A slot of the turn order: its kind and whether it is the release.
pub open spec fn slot_text(c: ChainSlot) -> Seq<u8> {
    "{\"k\":\"".spec_bytes() + kind_text(c.kind) + "\",\"rel\":".spec_bytes() + bool_text(c.releasing)
        + "}".spec_bytes()
}

/// The page's view of the battle `g` of run `run` with its status and whether the last
/// action was refused: size, status, refusal, room, potions, tiles, fire, the alive
/// units, the golem's announced cells, the acquired spells with their tiers, and the next
/// eight turns of the chain (see `project_chain`).
pub open spec fn render_spec(g: GameState, run: RunState, status: Status, rejected: bool) -> Seq<u8> {
    "{\"w\":".spec_bytes() + int_dec(g.w as int) + ",\"h\":".spec_bytes() + int_dec(g.h as int)
        + ",\"status\":".spec_bytes() + int_dec(status_code(status)) + ",\"rejected\":".spec_bytes() + bool_text(
        rejected,
    ) + ",\"room\":".spec_bytes() + int_dec(g.room_idx as int) + ",\"potions\":".spec_bytes() + int_dec(
        run.potions as int,
    ) + ",\"tiles\":[".spec_bytes() + tiles_text(g) + "],\"fire\":[".spec_bytes() + fire_text(g)
        + "],\"ents\":[".spec_bytes() + joined(alive_of(g.entities@).map_values(|e: Entity| ent_text(e)))
        + "],\"slamCells\":[".spec_bytes() + slam_text(g.entities@) + "],\"acquired\":[".spec_bytes() + joined(
        run.acquired@.map_values(|sp: Spell| int_dec(page_code(sp))),
    ) + "],\"tiers\":{".spec_bytes() + joined(
        run.acquired@.map_values(
            |sp: Spell| "\"".spec_bytes() + int_dec(page_code(sp)) + "\":".spec_bytes() + int_dec(
                run.tiers.tier_by_name(spell_name(sp)) as int,
            ),
        ),
    ) + "},\"chain\":[".spec_bytes() + joined(
        proj_slots(proj_init(g.entities@), 8, true).map_values(|c: ChainSlot| slot_text(c)),
    ) + "]}".spec_bytes()
}


/// Appends the bytes of `s`.
pub(crate) fn push_text(out: &mut Vec<u8>, s: &str)
    ensures
        final(out)@ == old(out)@ + s.spec_bytes(),
{
    let ghost o0 = out@;
    let b = s.as_bytes();
    let mut i: usize = 0;
    while i < b.len()
        invariant
            i <= b@.len(),
            b@ == s.spec_bytes(),
            out@ == o0 + b@.take(i as int),
        decreases b@.len() - i,
    {
        proof {
            assert(b@.take(i as int + 1) =~= b@.take(i as int).push(b@[i as int]));
        }
        out.push(b[i]);
        i = i + 1;
    }
    proof {
        assert(b@.take(b@.len() as int) =~= b@);
    }
}

/// Appends the decimal text of `n`.
pub(crate) fn push_int(out: &mut Vec<u8>, n: i64)
    requires
        n > i64::MIN,
    ensures
        final(out)@ == old(out)@ + int_dec(n as int),
{
    if n < 0 {
        let ghost o0 = out@;
        out.push(45);
        push_dec(out, (-n) as u64);
        proof {
            assert(out@ =~= o0 + (seq![45u8] + dec_spec((-n) as nat)));
        }
    } else {
        push_dec(out, n as u64);
    }
}

/// Appends the decimal text of `n`.
pub(crate) fn push_nat(out: &mut Vec<u8>, n: u64)
    ensures
        final(out)@ == old(out)@ + int_dec(n as int),
{
    push_dec(out, n);
}

/// Appends `true` or `false`.
pub(crate) fn push_bool(out: &mut Vec<u8>, b: bool)
    ensures
        final(out)@ == old(out)@ + bool_text(b),
{
    if b {
        push_text(out, "true");
    } else {
        push_text(out, "false");
    }
}

/// The comma before part `i` (none before the first).
pub open spec fn sep_of(i: int) -> Seq<u8> {
    if i > 0 {
        ",".spec_bytes()
    } else {
        Seq::empty()
    }
}

/// Appends a comma before every part but the first.
pub(crate) fn push_sep(out: &mut Vec<u8>, i: usize)
    ensures
        final(out)@ == old(out)@ + sep_of(i as int),
{
    if i > 0 {
        push_text(out, ",");
    } else {
        assert(out@ =~= out@ + Seq::<u8>::empty());
    }
}

/// The joined parts grow by one.
pub(crate) proof fn lemma_join_step(base: Seq<u8>, parts: Seq<Seq<u8>>, i: int, sep: Seq<u8>, out: Seq<u8>)
    requires
        0 <= i < parts.len(),
        sep == sep_of(i),
        out == base + joined(parts.take(i)) + sep + parts[i],
    ensures
        out == base + joined(parts.take(i + 1)),
{
    lemma_joined_push(parts, i);
    assert(out =~= base + (joined(parts.take(i)) + sep + parts[i]));
}

fn tile_num(t: Tile) -> (r: i64)
    ensures
        r == tile_code(t),
{
    match t {
        Tile::Floor => 0,
        Tile::Wall => 1,
        Tile::Wood => 2,
        Tile::WoodBurn => 3,
        Tile::Oil => 4,
        Tile::Spike => 5,
        Tile::Rune => 6,
    }
}

fn page_num(s: Spell) -> (r: i64)
    ensures
        r == page_code(s),
{
    match s {
        Spell::Bolt => 0,
        Spell::Push => 1,
        Spell::Fire => 2,
        Spell::Heavy => 3,
        Spell::OilFlask => 4,
        Spell::Hook => 5,
        Spell::Haste => 6,
    }
}

fn status_num(s: Status) -> (r: i64)
    ensures
        r == status_code(s),
{
    match s {
        Status::AwaitingInput => 0,
        Status::AwaitingRelease => 1,
        Status::PickOffered => 2,
        Status::RunComplete => 3,
        Status::Defeat => 4,
    }
}

pub(crate) fn push_kind(out: &mut Vec<u8>, k: Kind)
    ensures
        final(out)@ == old(out)@ + kind_text(k),
{
    match k {
        Kind::Mage => push_text(out, "mage"),
        Kind::Imp => push_text(out, "imp"),
        Kind::Eye => push_text(out, "eye"),
        Kind::Boss => push_text(out, "boss"),
    }
}

pub(crate) fn push_tile_row(out: &mut Vec<u8>, row: &Vec<Tile>)
    ensures
        final(out)@ == old(out)@ + row_text(row@.map_values(|t: Tile| tile_code(t))),
{
    let ghost parts = row@.map_values(|t: Tile| tile_code(t)).map_values(|x: int| int_dec(x));
    push_text(out, "[");
    let ghost base = out@;
    let mut i: usize = 0;
    proof {
        assert(parts.take(0) =~= Seq::<Seq<u8>>::empty());
        assert(out@ =~= base + joined(parts.take(0)));
    }
    while i < row.len()
        invariant
            i <= row@.len(),
            parts.len() == row@.len(),
            parts == row@.map_values(|t: Tile| tile_code(t)).map_values(|x: int| int_dec(x)),
            out@ == base + joined(parts.take(i as int)),
        decreases row@.len() - i,
    {
        push_sep(out, i);
        push_int(out, tile_num(row[i]));
        proof {
            lemma_join_step(base, parts, i as int, sep_of(i as int), out@);
        }
        i = i + 1;
    }
    proof {
        assert(parts.take(row@.len() as int) =~= parts);
    }
    push_text(out, "]");
}

pub(crate) fn push_fire_row(out: &mut Vec<u8>, row: &Vec<i32>)
    ensures
        final(out)@ == old(out)@ + row_text(row@.map_values(|v: i32| v as int)),
{
    let ghost parts = row@.map_values(|v: i32| v as int).map_values(|x: int| int_dec(x));
    push_text(out, "[");
    let ghost base = out@;
    let mut i: usize = 0;
    proof {
        assert(parts.take(0) =~= Seq::<Seq<u8>>::empty());
        assert(out@ =~= base + joined(parts.take(0)));
    }
    while i < row.len()
        invariant
            i <= row@.len(),
            parts.len() == row@.len(),
            parts == row@.map_values(|v: i32| v as int).map_values(|x: int| int_dec(x)),
            out@ == base + joined(parts.take(i as int)),
        decreases row@.len() - i,
    {
        push_sep(out, i);
        push_int(out, row[i] as i64);
        proof {
            lemma_join_step(base, parts, i as int, sep_of(i as int), out@);
        }
        i = i + 1;
    }
    proof {
        assert(parts.take(row@.len() as int) =~= parts);
    }
    push_text(out, "]");
}

fn push_tiles(out: &mut Vec<u8>, g: &GameState)
    ensures
        final(out)@ == old(out)@ + tiles_text(*g),
{
    let ghost parts = g.tiles@.map_values(|r: Vec<Tile>| row_text(r@.map_values(|t: Tile| tile_code(t))));
    let ghost base = out@;
    let mut y: usize = 0;
    proof {
        assert(parts.take(0) =~= Seq::<Seq<u8>>::empty());
        assert(out@ =~= base + joined(parts.take(0)));
    }
    while y < g.tiles.len()
        invariant
            y <= g.tiles@.len(),
            parts.len() == g.tiles@.len(),
            parts == g.tiles@.map_values(|r: Vec<Tile>| row_text(r@.map_values(|t: Tile| tile_code(t)))),
            out@ == base + joined(parts.take(y as int)),
        decreases g.tiles@.len() - y,
    {
        push_sep(out, y);
        push_tile_row(out, &g.tiles[y]);
        proof {
            lemma_join_step(base, parts, y as int, sep_of(y as int), out@);
        }
        y = y + 1;
    }
    proof {
        assert(parts.take(g.tiles@.len() as int) =~= parts);
    }
}

pub(crate) fn push_fire(out: &mut Vec<u8>, g: &GameState)
    ensures
        final(out)@ == old(out)@ + fire_text(*g),
{
    let ghost parts = g.fire@.map_values(|r: Vec<i32>| row_text(r@.map_values(|v: i32| v as int)));
    let ghost base = out@;
    let mut y: usize = 0;
    proof {
        assert(parts.take(0) =~= Seq::<Seq<u8>>::empty());
        assert(out@ =~= base + joined(parts.take(0)));
    }
    while y < g.fire.len()
        invariant
            y <= g.fire@.len(),
            parts.len() == g.fire@.len(),
            parts == g.fire@.map_values(|r: Vec<i32>| row_text(r@.map_values(|v: i32| v as int))),
            out@ == base + joined(parts.take(y as int)),
        decreases g.fire@.len() - y,
    {
        push_sep(out, y);
        push_fire_row(out, &g.fire[y]);
        proof {
            lemma_join_step(base, parts, y as int, sep_of(y as int), out@);
        }
        y = y + 1;
    }
    proof {
        assert(parts.take(g.fire@.len() as int) =~= parts);
    }
}

fn push_ent(out: &mut Vec<u8>, e: &Entity)
    ensures
        final(out)@ == old(out)@ + ent_text(*e),
{
    let mut t: Vec<u8> = Vec::new();
    let (ch, ready) = match &e.channel {
        Some(c) => (true, c.ready),
        None => (false, false),
    };
    push_text(&mut t, "{\"id\":");
    assert(t@ =~= "{\"id\":".spec_bytes());
    push_int(&mut t, e.id as i64);
    push_text(&mut t, ",\"k\":\"");
    push_kind(&mut t, e.kind);
    push_text(&mut t, "\",\"x\":");
    push_int(&mut t, e.x as i64);
    push_text(&mut t, ",\"y\":");
    push_int(&mut t, e.y as i64);
    push_text(&mut t, ",\"hp\":");
    push_int(&mut t, e.hp as i64);
    push_text(&mut t, ",\"max\":");
    push_int(&mut t, e.maxhp as i64);
    push_text(&mut t, ",\"haste\":");
    push_int(&mut t, e.haste_turns as i64);
    push_text(&mut t, ",\"ch\":");
    push_bool(&mut t, ch);
    push_text(&mut t, ",\"ready\":");
    push_bool(&mut t, ready);
    push_text(&mut t, ",\"slam\":");
    push_bool(&mut t, e.pending_slam);
    push_text(&mut t, "}");
    out.append(&mut t);
}

fn push_ents(out: &mut Vec<u8>, g: &GameState)
    ensures
        final(out)@ == old(out)@ + joined(alive_of(g.entities@).map_values(|e: Entity| ent_text(e))),
{
    let ghost s = g.entities@;
    let ghost base = out@;
    let mut i: usize = 0;
    let mut k: usize = 0;
    proof {
        assert(s.take(0) =~= Seq::<Entity>::empty());
        assert(alive_of(s.take(0)).map_values(|e: Entity| ent_text(e)) =~= Seq::<Seq<u8>>::empty());
        assert(out@ =~= base + joined(alive_of(s.take(0)).map_values(|e: Entity| ent_text(e))));
    }
    while i < g.entities.len()
        invariant
            i <= s.len(),
            s == g.entities@,
            k == alive_of(s.take(i as int)).len(),
            k <= i,
            out@ == base + joined(alive_of(s.take(i as int)).map_values(|e: Entity| ent_text(e))),
        decreases s.len() - i,
    {
        let ghost prev = alive_of(s.take(i as int));
        proof {
            assert(s.take(i as int + 1).drop_last() =~= s.take(i as int));
            assert(s.take(i as int + 1).last() == s[i as int]);
        }
        if g.entities[i].alive() {
            let ghost parts = prev.push(s[i as int]).map_values(|e: Entity| ent_text(e));
            proof {
                assert(parts.take(k as int) =~= prev.map_values(|e: Entity| ent_text(e)));
            }
            push_sep(out, k);
            push_ent(out, &g.entities[i]);
            proof {
                lemma_join_step(base, parts, k as int, sep_of(k as int), out@);
                assert(parts.take(k as int + 1) =~= parts);
            }
            k = k + 1;
        }
        i = i + 1;
    }
    proof {
        assert(s.take(s.len() as int) =~= s);
    }
}

fn push_slam(out: &mut Vec<u8>, g: &GameState)
    ensures
        final(out)@ == old(out)@ + slam_text(g.entities@),
{
    let ghost s = g.entities@;
    proof {
        crate::state::lemma_first_index(s, live_boss());
    }
    let mut b: usize = 0;
    while b < g.entities.len()
        invariant
            b <= s.len(),
            s == g.entities@,
            forall|j: int| 0 <= j < b ==> !live_boss()(#[trigger] s[j]),
        ensures
            b <= s.len(),
            forall|j: int| 0 <= j < b ==> !live_boss()(#[trigger] s[j]),
            b < s.len() ==> live_boss()(s[b as int]),
        decreases s.len() - b,
    {
        if g.entities[b].kind == Kind::Boss && g.entities[b].alive() {
            break;
        }
        b = b + 1;
    }
    if b == g.entities.len() {
        proof {
            assert(out@ =~= out@ + Seq::<u8>::empty());
        }
        return;
    }
    proof {
        assert(live_boss()(s[b as int]));
        crate::state::lemma_first_index_at(s, live_boss(), b as int);
    }
    let e = &g.entities[b];
    if !e.pending_slam {
        proof {
            assert(out@ =~= out@ + Seq::<u8>::empty());
        }
        return;
    }
    match &e.slam {
        Some(cells) => {
            let ghost parts = cells@.map_values(|c: (i32, i32)| cell_text(c));
            let ghost base = out@;
            let mut i: usize = 0;
            proof {
                assert(parts.take(0) =~= Seq::<Seq<u8>>::empty());
                assert(out@ =~= base + joined(parts.take(0)));
            }
            while i < cells.len()
                invariant
                    i <= cells@.len(),
                    parts == cells@.map_values(|c: (i32, i32)| cell_text(c)),
                    out@ == base + joined(parts.take(i as int)),
                decreases cells@.len() - i,
            {
                let (cx, cy) = cells[i];
                push_sep(out, i);
                let ghost o1 = out@;
                push_text(out, "[");
                push_int(out, cx as i64);
                push_text(out, ",");
                push_int(out, cy as i64);
                push_text(out, "]");
                proof {
                    assert(out@ =~= o1 + cell_text(cells@[i as int]));
                    lemma_join_step(base, parts, i as int, sep_of(i as int), out@);
                }
                i = i + 1;
            }
            proof {
                assert(parts.take(cells@.len() as int) =~= parts);
            }
        },
        None => {
            proof {
                assert(out@ =~= out@ + Seq::<u8>::empty());
            }
        },
    }
}

fn push_acquired(out: &mut Vec<u8>, run: &RunState)
    ensures
        final(out)@ == old(out)@ + joined(run.acquired@.map_values(|sp: Spell| int_dec(page_code(sp)))),
{
    let ghost parts = run.acquired@.map_values(|sp: Spell| int_dec(page_code(sp)));
    let ghost base = out@;
    let mut i: usize = 0;
    proof {
        assert(parts.take(0) =~= Seq::<Seq<u8>>::empty());
        assert(out@ =~= base + joined(parts.take(0)));
    }
    while i < run.acquired.len()
        invariant
            i <= run.acquired@.len(),
            parts == run.acquired@.map_values(|sp: Spell| int_dec(page_code(sp))),
            out@ == base + joined(parts.take(i as int)),
        decreases run.acquired@.len() - i,
    {
        push_sep(out, i);
        push_int(out, page_num(run.acquired[i]));
        proof {
            lemma_join_step(base, parts, i as int, sep_of(i as int), out@);
        }
        i = i + 1;
    }
    proof {
        assert(parts.take(run.acquired@.len() as int) =~= parts);
    }
}

fn push_tiers(out: &mut Vec<u8>, run: &RunState)
    ensures
        final(out)@ == old(out)@ + joined(
            run.acquired@.map_values(
                |sp: Spell| "\"".spec_bytes() + int_dec(page_code(sp)) + "\":".spec_bytes() + int_dec(
                    run.tiers.tier_by_name(spell_name(sp)) as int,
                ),
            ),
        ),
{
    let ghost parts = run.acquired@.map_values(
        |sp: Spell| "\"".spec_bytes() + int_dec(page_code(sp)) + "\":".spec_bytes() + int_dec(
            run.tiers.tier_by_name(spell_name(sp)) as int,
        ),
    );
    let ghost base = out@;
    let mut i: usize = 0;
    proof {
        assert(parts.take(0) =~= Seq::<Seq<u8>>::empty());
        assert(out@ =~= base + joined(parts.take(0)));
    }
    while i < run.acquired.len()
        invariant
            i <= run.acquired@.len(),
            parts == run.acquired@.map_values(
                |sp: Spell| "\"".spec_bytes() + int_dec(page_code(sp)) + "\":".spec_bytes() + int_dec(
                    run.tiers.tier_by_name(spell_name(sp)) as int,
                ),
            ),
            out@ == base + joined(parts.take(i as int)),
        decreases run.acquired@.len() - i,
    {
        let sp = run.acquired[i];
        push_sep(out, i);
        let ghost o1 = out@;
        push_text(out, "\"");
        push_int(out, page_num(sp));
        push_text(out, "\":");
        push_int(out, run.tiers.of(sp.id()) as i64);
        proof {
            assert(out@ =~= o1 + parts[i as int]);
            lemma_join_step(base, parts, i as int, sep_of(i as int), out@);
        }
        i = i + 1;
    }
    proof {
        assert(parts.take(run.acquired@.len() as int) =~= parts);
    }
}

fn push_chain(out: &mut Vec<u8>, slots: &Vec<ChainSlot>)
    ensures
        final(out)@ == old(out)@ + joined(slots@.map_values(|c: ChainSlot| slot_text(c))),
{
    let ghost parts = slots@.map_values(|c: ChainSlot| slot_text(c));
    let ghost base = out@;
    let mut i: usize = 0;
    proof {
        assert(parts.take(0) =~= Seq::<Seq<u8>>::empty());
        assert(out@ =~= base + joined(parts.take(0)));
    }
    while i < slots.len()
        invariant
            i <= slots@.len(),
            parts == slots@.map_values(|c: ChainSlot| slot_text(c)),
            out@ == base + joined(parts.take(i as int)),
        decreases slots@.len() - i,
    {
        let c = slots[i];
        push_sep(out, i);
        let ghost o1 = out@;
        push_text(out, "{\"k\":\"");
        push_kind(out, c.kind);
        push_text(out, "\",\"rel\":");
        push_bool(out, c.releasing);
        push_text(out, "}");
        proof {
            assert(out@ =~= o1 + parts[i as int]);
            lemma_join_step(base, parts, i as int, sep_of(i as int), out@);
        }
        i = i + 1;
    }
    proof {
        assert(parts.take(slots@.len() as int) =~= parts);
    }
}

/// Whether the battle's clocks leave room to project the eight turns `render_json` shows.
pub fn render_ready(g: &GameState) -> (r: bool)
    ensures
        r == g.time_room(8),
{
    let mut i: usize = 0;
    while i < g.entities.len()
        invariant
            i <= g.entities@.len(),
            forall|j: int| 0 <= j < i ==> (#[trigger] g.entities@[j]).time <= i64::MAX - 12 * 8,
        decreases g.entities@.len() - i,
    {
        let t = g.entities[i].time;
        if t > i64::MAX - 96 {
            return false;
        }
        i = i + 1;
    }
    true
}

/// The page's JSON view of the battle (see `render_spec`).
#[verifier::rlimit(80)]
pub fn render_json(g: &GameState, run: &RunState, status: Status, rejected: bool) -> (r: Vec<u8>)
    requires
        g.time_room(8),
    ensures
        r@ == render_spec(*g, *run, status, rejected),
{
    let mut out: Vec<u8> = Vec::new();
    let chain = project_chain(g, 8);
    push_text(&mut out, "{\"w\":");
    assert(out@ =~= "{\"w\":".spec_bytes());
    push_int(&mut out, g.w as i64);
    push_text(&mut out, ",\"h\":");
    push_int(&mut out, g.h as i64);
    push_text(&mut out, ",\"status\":");
    push_int(&mut out, status_num(status));
    push_text(&mut out, ",\"rejected\":");
    push_bool(&mut out, rejected);
    push_text(&mut out, ",\"room\":");
    push_nat(&mut out, g.room_idx as u64);
    push_text(&mut out, ",\"potions\":");
    push_int(&mut out, run.potions as i64);
    push_text(&mut out, ",\"tiles\":[");
    push_tiles(&mut out, g);
    push_text(&mut out, "],\"fire\":[");
    push_fire(&mut out, g);
    push_text(&mut out, "],\"ents\":[");
    push_ents(&mut out, g);
    push_text(&mut out, "],\"slamCells\":[");
    push_slam(&mut out, g);
    push_text(&mut out, "],\"acquired\":[");
    push_acquired(&mut out, run);
    push_text(&mut out, "],\"tiers\":{");
    push_tiers(&mut out, run);
    push_text(&mut out, "},\"chain\":[");
    push_chain(&mut out, &chain);
    push_text(&mut out, "]}");
    out
}

/// One event as a JSON object for the page.
pub open spec fn event_text(e: Event) -> Seq<u8> {
    match e {
        Event::Damaged { id, amt } => "{\"t\":\"dmg\",\"id\":".spec_bytes() + int_dec(id as int) + ",\"amt\":".spec_bytes()
            + int_dec(amt as int) + "}".spec_bytes(),
        Event::Died { id } => "{\"t\":\"die\",\"id\":".spec_bytes() + int_dec(id as int) + "}".spec_bytes(),
        Event::Moved { id, from, to } => "{\"t\":\"mv\",\"id\":".spec_bytes() + int_dec(id as int) + ",\"fx\":".spec_bytes()
            + int_dec(from.0 as int) + ",\"fy\":".spec_bytes() + int_dec(from.1 as int) + ",\"tx\":".spec_bytes() + int_dec(
            to.0 as int,
        ) + ",\"ty\":".spec_bytes() + int_dec(to.1 as int) + "}".spec_bytes(),
        Event::SpellCast { id, spell } => "{\"t\":\"cast\",\"id\":".spec_bytes() + int_dec(id as int) + ",\"s\":\"".spec_bytes()
            + spell.spec_bytes() + "\"}".spec_bytes(),
        Event::ChannelInterrupted { id } => "{\"t\":\"intr\",\"id\":".spec_bytes() + int_dec(id as int) + "}".spec_bytes(),
        Event::Stunned { id } => "{\"t\":\"stun\",\"id\":".spec_bytes() + int_dec(id as int) + "}".spec_bytes(),
        Event::HasteGained { id } => "{\"t\":\"haste\",\"id\":".spec_bytes() + int_dec(id as int) + "}".spec_bytes(),
        Event::Healed { id, amt } => "{\"t\":\"heal\",\"id\":".spec_bytes() + int_dec(id as int) + ",\"amt\":".spec_bytes()
            + int_dec(amt as int) + "}".spec_bytes(),
    }
}

/// The events of a step as a JSON array.
pub open spec fn events_spec(evs: Seq<Event>) -> Seq<u8> {
    "[".spec_bytes() + joined(evs.map_values(|e: Event| event_text(e))) + "]".spec_bytes()
}

fn push_event(out: &mut Vec<u8>, e: &Event)
    ensures
        final(out)@ == old(out)@ + event_text(*e),
{
    let ghost o0 = out@;
    match e {
        Event::Damaged { id, amt } => {
            push_text(out, "{\"t\":\"dmg\",\"id\":");
            push_nat(out, *id as u64);
            push_text(out, ",\"amt\":");
            push_int(out, *amt as i64);
            push_text(out, "}");
        },
        Event::Died { id } => {
            push_text(out, "{\"t\":\"die\",\"id\":");
            push_nat(out, *id as u64);
            push_text(out, "}");
        },
        Event::Moved { id, from, to } => {
            push_text(out, "{\"t\":\"mv\",\"id\":");
            push_nat(out, *id as u64);
            push_text(out, ",\"fx\":");
            push_int(out, from.0 as i64);
            push_text(out, ",\"fy\":");
            push_int(out, from.1 as i64);
            push_text(out, ",\"tx\":");
            push_int(out, to.0 as i64);
            push_text(out, ",\"ty\":");
            push_int(out, to.1 as i64);
            push_text(out, "}");
        },
        Event::SpellCast { id, spell } => {
            push_text(out, "{\"t\":\"cast\",\"id\":");
            push_nat(out, *id as u64);
            push_text(out, ",\"s\":\"");
            push_text(out, spell);
            push_text(out, "\"}");
        },
        Event::ChannelInterrupted { id } => {
            push_text(out, "{\"t\":\"intr\",\"id\":");
            push_nat(out, *id as u64);
            push_text(out, "}");
        },
        Event::Stunned { id } => {
            push_text(out, "{\"t\":\"stun\",\"id\":");
            push_nat(out, *id as u64);
            push_text(out, "}");
        },
        Event::HasteGained { id } => {
            push_text(out, "{\"t\":\"haste\",\"id\":");
            push_nat(out, *id as u64);
            push_text(out, "}");
        },
        Event::Healed { id, amt } => {
            push_text(out, "{\"t\":\"heal\",\"id\":");
            push_nat(out, *id as u64);
            push_text(out, ",\"amt\":");
            push_int(out, *amt as i64);
            push_text(out, "}");
        },
    }
    proof {
        assert(out@ =~= o0 + event_text(*e));
    }
}

/// The events of a step as the page's JSON array (see `events_spec`).
pub fn events_json(evs: &Vec<Event>) -> (r: Vec<u8>)
    ensures
        r@ == events_spec(evs@),
{
    let mut out: Vec<u8> = Vec::new();
    push_text(&mut out, "[");
    let ghost parts = evs@.map_values(|e: Event| event_text(e));
    let ghost base = out@;
    let mut i: usize = 0;
    proof {
        assert(parts.take(0) =~= Seq::<Seq<u8>>::empty());
        assert(out@ =~= base + joined(parts.take(0)));
    }
    while i < evs.len()
        invariant
            i <= evs@.len(),
            parts == evs@.map_values(|e: Event| event_text(e)),
            base == "[".spec_bytes(),
            out@ == base + joined(parts.take(i as int)),
        decreases evs@.len() - i,
    {
        push_sep(&mut out, i);
        push_event(&mut out, &evs[i]);
        proof {
            lemma_join_step(base, parts, i as int, sep_of(i as int), out@);
        }
        i = i + 1;
    }
    push_text(&mut out, "]");
    proof {
        assert(parts.take(evs@.len() as int) =~= parts);
        assert(out@ =~= events_spec(evs@));
    }
    out
}

} // verus!
