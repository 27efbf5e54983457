//! The spell registry: static data of each spell, legality checks, and effects.
use crate::config::{BOLT_DMG, BOLT_RANGE, FIRE_DMG, FIRE_DUR, FIRE_RANGE, HASTE_GRANT, HEAVY_DMG, HEAVY_RANGE, HOOK_RANGE, OIL_RANGE, WOOD_BURN_TICKS};
use crate::damage::{damage_ents, damage_events, deal_damage, StepCtx, TierTable};
use crate::events::Event;
use crate::grid::{
    abs_spec, blocks_move, blocks_spec, cells_in_bounds, cheb, cheb_spec, coord_ok, ent_index_at, from_offset,
    heavy_area, heavy_offsets, in_bounds, lemma_cells_in_bounds, los, los_spec, opt_int, sign, sign_spec,
    walkable_spec,
};
use crate::movement::{do_pull, do_push, moved_to, pull_ents, pull_events, push_ents, push_events, shove_dir, shove_ents_s, shove_events_s};
use crate::state::{
    frame_kept, ent_ok, first_index, is_alive, is_alive_enemy, lemma_count_same, lemma_first_index, lemma_times_kept_trans,
    mage_pred, occupies, times_kept, Channel, Entity, GameState, Kind, Tile, COORD_CAP,
};
use crate::grid::{first_unit_on_ray, lemma_ray_hit, ray_hit};
use crate::terrain::{flood_events, flood_order, ignite_ents, ignite_events, reach_set, oil_path, oil_reach, blast_cell, blast_step, cell_of, cell_ok, ents_burned, extends, fire_after_ignite, ignite_oil, lemma_board_ok, lemma_extends_refl};
use vstd::prelude::*;

verus! {

/// Element of a spell.
#[derive(Clone, Copy, Debug, PartialEq, Eq, Structural)]
pub enum Element {
    Fire,
    Water,
    Electric,
    Earth,
    Neutral,
    Physical,
}

/// What a spell aims at.
#[derive(Clone, Copy, Debug, PartialEq, Eq, Structural)]
pub enum TargetKind {
    Enemy,
    AdjEnemy,
    Cell,
    SelfCast,
}

/// Target cell of a cast; self-cast spells ignore it.
#[derive(Clone, Copy, Debug, PartialEq, Eq, Structural)]
pub struct Target {
    pub x: i32,
    pub y: i32,
}

impl Target {
    pub fn cell(x: i32, y: i32) -> (r: Self)
        ensures
            r.x == x && r.y == y,
    {
        Target { x, y }
    }

    pub fn none() -> (r: Self)
        ensures
            r.x == 0 && r.y == 0,
    {
        Target { x: 0, y: 0 }
    }
}

/// Why an action was refused.
#[derive(Clone, Copy, Debug, PartialEq, Eq, Structural)]
pub enum Reject {
    NoEnemyThere,
    OutOfRange,
    NoLineOfSight,
    NotAdjacent,
    AlreadyAdjacent,
    TargetIsWall,
    NotFloor,
    OutOfBounds,
    /// No potion left, or hit points already full.
    CannotDrink,
    /// The move target is a wall, occupied, or the mage's own cell.
    BlockedDestination,
    /// No path leads to the move target.
    NoPath,
    /// Nothing is being charged.
    NothingToRelease,
}

/// The spells.
#[derive(Clone, Copy, Debug, PartialEq, Eq, Structural)]
pub enum Spell {
    Bolt,
    Push,
    Fire,
    Heavy,
    OilFlask,
    Hook,
    Haste,
}

/// The text id of a spell (also its key in the tier table).
pub open spec fn spell_name(s: Spell) -> Seq<char> {
    match s {
        Spell::Bolt => seq!['b', 'o', 'l', 't'],
        Spell::Push => seq!['p', 'u', 's', 'h'],
        Spell::Fire => seq!['f', 'i', 'r', 'e'],
        Spell::Heavy => seq!['h', 'e', 'a', 'v', 'y'],
        Spell::OilFlask => seq!['o', 'i', 'l', 'f', 'l', 'a', 's', 'k'],
        Spell::Hook => seq!['h', 'o', 'o', 'k'],
        Spell::Haste => seq!['h', 'a', 's', 't', 'e'],
    }
}

/// The spell whose text id is `name`, if any.
pub open spec fn spell_of_name(name: Seq<char>) -> Option<Spell> {
    if name == spell_name(Spell::Bolt) {
        Some(Spell::Bolt)
    } else if name == spell_name(Spell::Push) {
        Some(Spell::Push)
    } else if name == spell_name(Spell::Fire) {
        Some(Spell::Fire)
    } else if name == spell_name(Spell::Heavy) {
        Some(Spell::Heavy)
    } else if name == spell_name(Spell::OilFlask) {
        Some(Spell::OilFlask)
    } else if name == spell_name(Spell::Hook) {
        Some(Spell::Hook)
    } else if name == spell_name(Spell::Haste) {
        Some(Spell::Haste)
    } else {
        None
    }
}

/// Position of a spell in `SPELL_ORDER`.
pub open spec fn spell_code(s: Spell) -> int {
    match s {
        Spell::Bolt => 0,
        Spell::Push => 1,
        Spell::Fire => 2,
        Spell::Heavy => 3,
        Spell::OilFlask => 4,
        Spell::Hook => 5,
        Spell::Haste => 6,
    }
}

pub open spec fn element_spec(s: Spell) -> Element {
    match s {
        Spell::Bolt => Element::Neutral,
        Spell::Push => Element::Physical,
        Spell::Fire => Element::Fire,
        Spell::Heavy => Element::Fire,
        Spell::OilFlask => Element::Neutral,
        Spell::Hook => Element::Physical,
        Spell::Haste => Element::Neutral,
    }
}

/// Baseline spells are always owned and never offered.
pub open spec fn baseline_spec(s: Spell) -> bool {
    s == Spell::Bolt || s == Spell::Push
}

pub open spec fn is_channel_spec(s: Spell) -> bool {
    s == Spell::Heavy
}

pub open spec fn target_kind_spec(s: Spell) -> TargetKind {
    match s {
        Spell::Bolt | Spell::Hook => TargetKind::Enemy,
        Spell::Push => TargetKind::AdjEnemy,
        Spell::Fire | Spell::Heavy | Spell::OilFlask => TargetKind::Cell,
        Spell::Haste => TargetKind::SelfCast,
    }
}

pub open spec fn max_tier_spec(s: Spell) -> u8 {
    match s {
        Spell::Bolt => 1,
        _ => 2,
    }
}

/// The names of different spells differ.
pub proof fn lemma_spell_names_distinct()
    ensures
        forall|a: Spell| #[trigger] spell_of_name(spell_name(a)) == Some(a),
{
    assert forall|a: Spell| #[trigger] spell_of_name(spell_name(a)) == Some(a) by {
        let n = spell_name(a);
        if a != Spell::Bolt {
            assert(n != spell_name(Spell::Bolt)) by {
                if n.len() == 4 {
                    assert(n[0] != 'b' || n[1] != 'o');
                }
            }
        }
        if a != Spell::Push && a != Spell::Bolt {
            assert(n != spell_name(Spell::Push)) by {
                if n.len() == 4 {
                    assert(n[0] != 'p');
                }
            }
        }
        if a != Spell::Fire && a != Spell::Push && a != Spell::Bolt {
            assert(n != spell_name(Spell::Fire)) by {
                if n.len() == 4 {
                    assert(n[0] != 'f');
                }
            }
        }
        if a == Spell::OilFlask || a == Spell::Hook || a == Spell::Haste {
            assert(n != spell_name(Spell::Heavy)) by {
                if n.len() == 5 {
                    assert(n[1] != 'e');
                }
            }
        }
        if a == Spell::Hook || a == Spell::Haste {
            assert(n != spell_name(Spell::OilFlask)) by {
                assert(n.len() != 8);
            }
        }
        if a == Spell::Haste {
            assert(n != spell_name(Spell::Hook)) by {
                assert(n.len() != 4);
            }
        }
    }
}

/// The text id of each spell.
pub open spec fn spell_id(s: Spell) -> &'static str {
    match s {
        Spell::Bolt => "bolt",
        Spell::Push => "push",
        Spell::Fire => "fire",
        Spell::Heavy => "heavy",
        Spell::OilFlask => "oilflask",
        Spell::Hook => "hook",
        Spell::Haste => "haste",
    }
}

impl Spell {
    /// The spell's text id.
    pub fn id(self) -> (r: &'static str)
        ensures
            r@ == spell_name(self),
            r == spell_id(self),
    {
        match self {
            Spell::Bolt => {
                proof {
                    reveal_strlit("bolt");
                }
                "bolt"
            },
            Spell::Push => {
                proof {
                    reveal_strlit("push");
                }
                "push"
            },
            Spell::Fire => {
                proof {
                    reveal_strlit("fire");
                }
                "fire"
            },
            Spell::Heavy => {
                proof {
                    reveal_strlit("heavy");
                }
                "heavy"
            },
            Spell::OilFlask => {
                proof {
                    reveal_strlit("oilflask");
                }
                "oilflask"
            },
            Spell::Hook => {
                proof {
                    reveal_strlit("hook");
                }
                "hook"
            },
            Spell::Haste => {
                proof {
                    reveal_strlit("haste");
                }
                "haste"
            },
        }
    }

    /// Position of the spell in `SPELL_ORDER`.
    pub fn code(self) -> (r: usize)
        ensures
            r == spell_code(self),
            r < 7,
    {
        match self {
            Spell::Bolt => 0,
            Spell::Push => 1,
            Spell::Fire => 2,
            Spell::Heavy => 3,
            Spell::OilFlask => 4,
            Spell::Hook => 5,
            Spell::Haste => 6,
        }
    }

    pub fn element(self) -> (r: Element)
        ensures
            r == element_spec(self),
    {
        match self {
            Spell::Bolt => Element::Neutral,
            Spell::Push => Element::Physical,
            Spell::Fire => Element::Fire,
            Spell::Heavy => Element::Fire,
            Spell::OilFlask => Element::Neutral,
            Spell::Hook => Element::Physical,
            Spell::Haste => Element::Neutral,
        }
    }

    /// Baseline kit (bolt and push): outside the slot limit and the pick pool.
    pub fn baseline(self) -> (r: bool)
        ensures
            r == baseline_spec(self),
    {
        match self {
            Spell::Bolt | Spell::Push => true,
            _ => false,
        }
    }

    /// Two-turn (charge then release) spell.
    pub fn is_channel(self) -> (r: bool)
        ensures
            r == is_channel_spec(self),
    {
        match self {
            Spell::Heavy => true,
            _ => false,
        }
    }

    pub fn target_kind(self) -> (r: TargetKind)
        ensures
            r == target_kind_spec(self),
    {
        match self {
            Spell::Bolt | Spell::Hook => TargetKind::Enemy,
            Spell::Push => TargetKind::AdjEnemy,
            Spell::Fire | Spell::Heavy | Spell::OilFlask => TargetKind::Cell,
            Spell::Haste => TargetKind::SelfCast,
        }
    }

    /// Highest tier the spell can be upgraded to.
    pub fn max_tier(self) -> (r: u8)
        ensures
            r == max_tier_spec(self),
    {
        match self {
            Spell::Bolt => 1,
            _ => 2,
        }
    }
}

/// Whether two strings hold the same characters.
fn str_eq(a: &str, b: &str) -> (r: bool)
    ensures
        r == (a@ == b@),
{
    let x = a.as_bytes();
    let y = b.as_bytes();
    proof {
        vstd::utf8::encode_utf8_decode_utf8(a@);
        vstd::utf8::encode_utf8_decode_utf8(b@);
    }
    if x.len() != y.len() {
        return false;
    }
    let mut i: usize = 0;
    while i < x.len()
        invariant
            x@.len() == y@.len(),
            x@ == vstd::utf8::encode_utf8(a@),
            y@ == vstd::utf8::encode_utf8(b@),
            i <= x@.len(),
            forall|j: int| 0 <= j < i ==> x@[j] == y@[j],
        decreases x@.len() - i,
    {
        if x[i] != y[i] {
            return false;
        }
        i = i + 1;
    }
    assert(x@ =~= y@);
    true
}

/// The spell whose text id is `id`, if any.
pub fn spell_by_id(id: &str) -> (r: Option<Spell>)
    ensures
        r == spell_of_name(id@),
{
    proof {
        lemma_spell_names_distinct();
    }
    let mut i: usize = 0;
    while i < 7
        invariant
            i <= 7,
            forall|j: int| 0 <= j < i ==> id@ != spell_name(#[trigger] spell_order()[j]),
        decreases 7 - i,
    {
        let s = SPELL_ORDER[i];
        assert(s == spell_order()[i as int]);
        if str_eq(id, s.id()) {
            proof {
                assert(spell_of_name(spell_name(s)) == Some(s));
            }
            return Some(s);
        }
        i = i + 1;
    }
    proof {
        assert(id@ != spell_name(spell_order()[0]));
        assert(id@ != spell_name(spell_order()[1]));
        assert(id@ != spell_name(spell_order()[2]));
        assert(id@ != spell_name(spell_order()[3]));
        assert(id@ != spell_name(spell_order()[4]));
        assert(id@ != spell_name(spell_order()[5]));
        assert(id@ != spell_name(spell_order()[6]));
    }
    None
}

/// All spells in their fixed registry order (the pick pool is shuffled from this order).
pub const SPELL_ORDER: [Spell; 7] = [
    Spell::Bolt,
    Spell::Push,
    Spell::Fire,
    Spell::Heavy,
    Spell::OilFlask,
    Spell::Hook,
    Spell::Haste,
];

pub open spec fn spell_order() -> Seq<Spell> {
    seq![Spell::Bolt, Spell::Push, Spell::Fire, Spell::Heavy, Spell::OilFlask, Spell::Hook, Spell::Haste]
}

/// The non-baseline spells of `s`, in order.
pub open spec fn non_baseline(s: Seq<Spell>) -> Seq<Spell>
    decreases s.len(),
{
    if s.len() == 0 {
        Seq::empty()
    } else if baseline_spec(s.last()) {
        non_baseline(s.drop_last())
    } else {
        non_baseline(s.drop_last()).push(s.last())
    }
}

pub open spec fn pickable_spec() -> Seq<Spell> {
    seq![Spell::Fire, Spell::Heavy, Spell::OilFlask, Spell::Hook, Spell::Haste]
}

/// The pick pool: the non-baseline spells in registry order.
pub fn pickable() -> (r: Vec<Spell>)
    ensures
        r@ == non_baseline(spell_order()),
        r@ == pickable_spec(),
{
    let mut out: Vec<Spell> = Vec::new();
    let mut i: usize = 0;
    while i < 7
        invariant
            i <= 7,
            out@ == non_baseline(spell_order().take(i as int)),
        decreases 7 - i,
    {
        let s = SPELL_ORDER[i];
        proof {
            assert(s == spell_order()[i as int]);
            assert(spell_order().take(i as int + 1).drop_last() =~= spell_order().take(i as int));
        }
        if !s.baseline() {
            out.push(s);
        }
        i = i + 1;
    }
    proof {
        assert(spell_order().take(7) =~= spell_order());
        lemma_pickable_value();
    }
    out
}

proof fn lemma_pickable_value()
    ensures
        non_baseline(spell_order()) == pickable_spec(),
{
    let o = spell_order();
    assert(o.take(1).drop_last() =~= o.take(0));
    assert(o.take(2).drop_last() =~= o.take(1));
    assert(o.take(3).drop_last() =~= o.take(2));
    assert(o.take(4).drop_last() =~= o.take(3));
    assert(o.take(5).drop_last() =~= o.take(4));
    assert(o.take(6).drop_last() =~= o.take(5));
    assert(o.take(7).drop_last() =~= o.take(6));
    assert(o.take(7) =~= o);
    assert(non_baseline(o.take(0)) =~= Seq::empty());
    assert(non_baseline(o.take(1)) =~= Seq::empty());
    assert(non_baseline(o.take(2)) =~= Seq::empty());
    assert(non_baseline(o.take(3)) =~= seq![Spell::Fire]);
    assert(non_baseline(o.take(4)) =~= seq![Spell::Fire, Spell::Heavy]);
    assert(non_baseline(o.take(5)) =~= seq![Spell::Fire, Spell::Heavy, Spell::OilFlask]);
    assert(non_baseline(o.take(6)) =~= seq![Spell::Fire, Spell::Heavy, Spell::OilFlask, Spell::Hook]);
    assert(non_baseline(o.take(7)) =~= pickable_spec());
}

/// The pick pool holds exactly the non-baseline spells, each once.
pub proof fn law_pickable_is_non_baseline(s: Spell)
    ensures
        pickable_spec().contains(s) <==> !baseline_spec(s),
        pickable_spec().no_duplicates(),
{
    if !baseline_spec(s) {
        let i = match s {
            Spell::Fire => 0int,
            Spell::Heavy => 1,
            Spell::OilFlask => 2,
            Spell::Hook => 3,
            _ => 4,
        };
        assert(pickable_spec()[i] == s);
    }
}

} // verus!

verus! {

/// Index of the enemy (an alive non-mage unit) first found on `(x, y)` in `s`.
pub open spec fn enemy_at_s(s: Seq<Entity>, x: int, y: int) -> Option<int> {
    match first_index(s, occupies(x, y)) {
        Some(i) => if s[i].kind != Kind::Mage {
            Some(i)
        } else {
            None
        },
        None => None,
    }
}

pub open spec fn enemy_at_spec(g: GameState, x: int, y: int) -> Option<int> {
    enemy_at_s(g.entities@, x, y)
}

/// The legality check of each spell, in the order its conditions are tried.
pub open spec fn validate_spec(spell: Spell, g: GameState, t: Target) -> Result<(), Reject> {
    let m = g.mage_spec();
    let (mx, my) = (m.x as int, m.y as int);
    let (tx, ty) = (t.x as int, t.y as int);
    match spell {
        Spell::Bolt => match enemy_at_spec(g, tx, ty) {
            None => Err(Reject::NoEnemyThere),
            Some(e) => if cheb_spec(mx, my, g.entities@[e].x as int, g.entities@[e].y as int) > BOLT_RANGE {
                Err(Reject::OutOfRange)
            } else if !los_spec(g, mx, my, tx, ty) {
                Err(Reject::NoLineOfSight)
            } else {
                Ok(())
            },
        },
        Spell::Push => match enemy_at_spec(g, tx, ty) {
            None => Err(Reject::NoEnemyThere),
            Some(e) => if cheb_spec(mx, my, g.entities@[e].x as int, g.entities@[e].y as int) != 1 {
                Err(Reject::NotAdjacent)
            } else {
                Ok(())
            },
        },
        Spell::Hook => match enemy_at_spec(g, tx, ty) {
            None => Err(Reject::NoEnemyThere),
            Some(e) => {
                let (ex, ey) = (g.entities@[e].x as int, g.entities@[e].y as int);
                let d = cheb_spec(mx, my, ex, ey);
                if d > HOOK_RANGE {
                    Err(Reject::OutOfRange)
                } else if d == 1 {
                    Err(Reject::AlreadyAdjacent)
                } else if !los_spec(g, mx, my, ex, ey) {
                    Err(Reject::NoLineOfSight)
                } else {
                    Ok(())
                }
            },
        },
        Spell::Fire => if !g.inb(tx, ty) || cheb_spec(mx, my, tx, ty) > FIRE_RANGE {
            Err(Reject::OutOfRange)
        } else if !los_spec(g, mx, my, tx, ty) {
            Err(Reject::NoLineOfSight)
        } else if blocks_spec(g.tile(tx, ty)) {
            Err(Reject::TargetIsWall)
        } else {
            Ok(())
        },
        Spell::Heavy => if !g.inb(tx, ty) || cheb_spec(mx, my, tx, ty) > HEAVY_RANGE {
            Err(Reject::OutOfRange)
        } else if !los_spec(g, mx, my, tx, ty) {
            Err(Reject::NoLineOfSight)
        } else if g.tile(tx, ty) == Tile::Wall {
            Err(Reject::TargetIsWall)
        } else {
            Ok(())
        },
        Spell::OilFlask => if !g.inb(tx, ty) || cheb_spec(mx, my, tx, ty) > OIL_RANGE {
            Err(Reject::OutOfRange)
        } else if !los_spec(g, mx, my, tx, ty) {
            Err(Reject::NoLineOfSight)
        } else if g.tile(tx, ty) != Tile::Floor {
            Err(Reject::NotFloor)
        } else {
            Ok(())
        },
        Spell::Haste => Ok(()),
    }
}

/// An alive enemy (not the mage) stands on `(x, y)`.
pub open spec fn enemy_stands(g: GameState, x: int, y: int) -> bool {
    exists|i: int|
        0 <= i < g.entities@.len() && (#[trigger] g.entities@[i]).hp > 0 && g.entities@[i].kind != Kind::Mage
            && g.entities@[i].x == x && g.entities@[i].y == y
}

/// What an accepted spell needs: a ranged spell (bolt, fire, heavy blast, oil flask,
/// hook) sees its target along a clear line of sight from the mage; each is within its
/// range; the bolt, push and hook aim at an alive enemy (the push at one next to the
/// mage, the hook at one not next to it); fire and the heavy blast do not aim at a wall
/// (fire at no wood either) and the flask lands on floor.
pub proof fn law_accepted_spell_needs_sight(spell: Spell, g: GameState, t: Target)
    requires
        validate_spec(spell, g, t) is Ok,
    ensures
        (spell == Spell::Bolt || spell == Spell::Fire || spell == Spell::Heavy || spell == Spell::OilFlask || spell
            == Spell::Hook) ==> los_spec(g, g.mage_spec().x as int, g.mage_spec().y as int, t.x as int, t.y as int),
        (spell == Spell::Bolt || spell == Spell::Push || spell == Spell::Hook) ==> enemy_stands(g, t.x as int, t.y as int),
        spell == Spell::Bolt ==> cheb_spec(g.mage_spec().x as int, g.mage_spec().y as int, t.x as int, t.y as int) <= BOLT_RANGE,
        spell == Spell::Push ==> cheb_spec(g.mage_spec().x as int, g.mage_spec().y as int, t.x as int, t.y as int) == 1,
        spell == Spell::Hook ==> cheb_spec(g.mage_spec().x as int, g.mage_spec().y as int, t.x as int, t.y as int) != 1
            && cheb_spec(g.mage_spec().x as int, g.mage_spec().y as int, t.x as int, t.y as int) <= HOOK_RANGE,
        spell == Spell::Fire ==> g.inb(t.x as int, t.y as int) && cheb_spec(g.mage_spec().x as int, g.mage_spec().y as int, t.x as int, t.y as int)
            <= FIRE_RANGE && g.tile(t.x as int, t.y as int) != Tile::Wall && g.tile(t.x as int, t.y as int) != Tile::Wood
            && g.tile(t.x as int, t.y as int) != Tile::WoodBurn,
        spell == Spell::Heavy ==> g.inb(t.x as int, t.y as int) && cheb_spec(g.mage_spec().x as int, g.mage_spec().y as int, t.x as int, t.y as int)
            <= HEAVY_RANGE && g.tile(t.x as int, t.y as int) != Tile::Wall,
        spell == Spell::OilFlask ==> g.inb(t.x as int, t.y as int) && cheb_spec(g.mage_spec().x as int, g.mage_spec().y as int, t.x as int, t.y as int)
            <= OIL_RANGE && g.tile(t.x as int, t.y as int) == Tile::Floor,
{
    let (tx, ty) = (t.x as int, t.y as int);
    lemma_first_index(g.entities@, occupies(tx, ty));
    if let Some(i) = enemy_at_spec(g, tx, ty) {
        assert(g.entities@[i].hp > 0 && g.entities@[i].x == tx && g.entities@[i].y == ty);
        assert(enemy_stands(g, tx, ty));
    }
}

/// When a spell is accepted: haste always; fire, the heavy blast and the oil flask
/// exactly when the target cell is on the board, within range, in clear sight and of a
/// fitting tile; the bolt, push and hook, on a cell where no alive mage stands, exactly
/// when an alive enemy stands there at the right distance (and in clear sight for the
/// bolt and the hook).
pub proof fn law_spell_accepted_when(spell: Spell, g: GameState, t: Target)
    ensures
        ({
            let (mx, my) = (g.mage_spec().x as int, g.mage_spec().y as int);
            let (tx, ty) = (t.x as int, t.y as int);
            let d = cheb_spec(mx, my, tx, ty);
            let ok = validate_spec(spell, g, t) is Ok;
            let no_mage_there = forall|i: int|
                0 <= i < g.entities@.len() && (#[trigger] g.entities@[i]).hp > 0 && g.entities@[i].x == tx && g.entities@[i].y
                    == ty ==> g.entities@[i].kind != Kind::Mage;
            &&& spell == Spell::Haste ==> ok
            &&& spell == Spell::Fire ==> (ok <==> g.inb(tx, ty) && d <= FIRE_RANGE && los_spec(g, mx, my, tx, ty) && g.tile(tx, ty)
                != Tile::Wall && g.tile(tx, ty) != Tile::Wood && g.tile(tx, ty) != Tile::WoodBurn)
            &&& spell == Spell::Heavy ==> (ok <==> g.inb(tx, ty) && d <= HEAVY_RANGE && los_spec(g, mx, my, tx, ty) && g.tile(
                tx,
                ty,
            ) != Tile::Wall)
            &&& spell == Spell::OilFlask ==> (ok <==> g.inb(tx, ty) && d <= OIL_RANGE && los_spec(g, mx, my, tx, ty) && g.tile(
                tx,
                ty,
            ) == Tile::Floor)
            &&& (spell == Spell::Bolt && no_mage_there) ==> (ok <==> enemy_stands(g, tx, ty) && d <= BOLT_RANGE && los_spec(
                g,
                mx,
                my,
                tx,
                ty,
            ))
            &&& (spell == Spell::Push && no_mage_there) ==> (ok <==> enemy_stands(g, tx, ty) && d == 1)
            &&& (spell == Spell::Hook && no_mage_there) ==> (ok <==> enemy_stands(g, tx, ty) && d != 1 && d <= HOOK_RANGE
                && los_spec(g, mx, my, tx, ty))
        }),
{
    let (tx, ty) = (t.x as int, t.y as int);
    let s = g.entities@;
    lemma_first_index(s, occupies(tx, ty));
    if let Some(i) = enemy_at_spec(g, tx, ty) {
        assert(s[i].hp > 0 && s[i].x == tx && s[i].y == ty);
        assert(enemy_stands(g, tx, ty));
    }
    if enemy_stands(g, tx, ty) {
        let i = choose|i: int|
            0 <= i < s.len() && (#[trigger] s[i]).hp > 0 && s[i].kind != Kind::Mage && s[i].x == tx && s[i].y == ty;
        assert(occupies(tx, ty)(s[i]));
    }
}

/// Position of the mage.
fn mage_pos(g: &GameState) -> (r: (i32, i32))
    requires
        g.has_mage(),
    ensures
        r == (g.mage_spec().x, g.mage_spec().y),
{
    let m = g.mage();
    (m.x, m.y)
}

/// Index of the enemy (alive, not the mage) on `(x, y)`.
fn enemy_at(g: &GameState, x: i32, y: i32) -> (r: Option<usize>)
    ensures
        opt_int(r) == enemy_at_spec(*g, x as int, y as int),
        r matches Some(i) ==> i < g.entities@.len() && g.entities@[i as int].hp > 0 && g.entities@[i as int].x
            == x && g.entities@[i as int].y == y,
{
    proof {
        lemma_first_index(g.entities@, occupies(x as int, y as int));
    }
    match ent_index_at(g, x, y) {
        Some(i) => if !g.entities[i].kind.is_mage() {
            Some(i)
        } else {
            None
        },
        None => None,
    }
}

/// Legality check of casting `spell` at `t`; the error says which condition failed first.
pub fn validate(spell: Spell, g: &GameState, t: Target) -> (r: Result<(), Reject>)
    requires
        g.wf(),
        g.has_mage(),
    ensures
        r == validate_spec(spell, *g, t),
{
    let (mx, my) = mage_pos(g);
    proof {
        lemma_first_index(g.entities@, mage_pred());
        assert(ent_ok(g.entities@[g.mage_index()]));
        assert(g.w <= COORD_CAP && g.h <= COORD_CAP);
    }
    match spell {
        Spell::Bolt => {
            let e = match enemy_at(g, t.x, t.y) {
                Some(e) => e,
                None => {
                    return Err(Reject::NoEnemyThere);
                },
            };
            proof {
                assert(ent_ok(g.entities@[e as int]));
            }
            if cheb(mx, my, g.entities[e].x, g.entities[e].y) > BOLT_RANGE {
                return Err(Reject::OutOfRange);
            }
            if !los(g, mx, my, t.x, t.y) {
                return Err(Reject::NoLineOfSight);
            }
            Ok(())
        },
        Spell::Push => {
            let e = match enemy_at(g, t.x, t.y) {
                Some(e) => e,
                None => {
                    return Err(Reject::NoEnemyThere);
                },
            };
            proof {
                assert(ent_ok(g.entities@[e as int]));
            }
            if cheb(mx, my, g.entities[e].x, g.entities[e].y) != 1 {
                return Err(Reject::NotAdjacent);
            }
            Ok(())
        },
        Spell::Hook => {
            let e = match enemy_at(g, t.x, t.y) {
                Some(e) => e,
                None => {
                    return Err(Reject::NoEnemyThere);
                },
            };
            proof {
                assert(ent_ok(g.entities@[e as int]));
            }
            let d = cheb(mx, my, g.entities[e].x, g.entities[e].y);
            if d > HOOK_RANGE {
                return Err(Reject::OutOfRange);
            }
            if d == 1 {
                return Err(Reject::AlreadyAdjacent);
            }
            if !los(g, mx, my, g.entities[e].x, g.entities[e].y) {
                return Err(Reject::NoLineOfSight);
            }
            Ok(())
        },
        Spell::Fire => {
            if !in_bounds(g, t.x, t.y) || cheb(mx, my, t.x, t.y) > FIRE_RANGE {
                return Err(Reject::OutOfRange);
            }
            if !los(g, mx, my, t.x, t.y) {
                return Err(Reject::NoLineOfSight);
            }
            if blocks_move(g, t.x, t.y) {
                return Err(Reject::TargetIsWall);
            }
            Ok(())
        },
        Spell::Heavy => {
            if !in_bounds(g, t.x, t.y) || cheb(mx, my, t.x, t.y) > HEAVY_RANGE {
                return Err(Reject::OutOfRange);
            }
            if !los(g, mx, my, t.x, t.y) {
                return Err(Reject::NoLineOfSight);
            }
            if g.tiles[t.y as usize][t.x as usize] == Tile::Wall {
                return Err(Reject::TargetIsWall);
            }
            Ok(())
        },
        Spell::OilFlask => {
            if !in_bounds(g, t.x, t.y) || cheb(mx, my, t.x, t.y) > OIL_RANGE {
                return Err(Reject::OutOfRange);
            }
            if !los(g, mx, my, t.x, t.y) {
                return Err(Reject::NoLineOfSight);
            }
            if g.tiles[t.y as usize][t.x as usize] != Tile::Floor {
                return Err(Reject::NotFloor);
            }
            Ok(())
        },
        Spell::Haste => Ok(()),
    }
}

} // verus!

verus! {

/// The cell lies in the plus shape around `(cx, cy)`.
pub open spec fn in_plus(cx: int, cy: int, x: int, y: int) -> bool {
    abs_spec(x - cx) + abs_spec(y - cy) <= 1
}

/// Blast damage on each listed cell in turn: the enemy there takes `HEAVY_DMG`; the
/// survivors are collected in hit order. Gives the entities, the events and the hits.
pub open spec fn heavy_hits(s: Seq<Entity>, cells: Seq<(i32, i32)>, t: TierTable) -> (Seq<Entity>, Seq<Event>, Seq<int>)
    decreases cells.len(),
{
    if cells.len() == 0 {
        (s, Seq::empty(), Seq::empty())
    } else {
        let p = heavy_hits(s, cells.drop_last(), t);
        let c = cells.last();
        match enemy_at_s(p.0, c.0 as int, c.1 as int) {
            Some(e) => {
                let s2 = damage_ents(p.0, e, HEAVY_DMG, t);
                (
                    s2,
                    p.1 + damage_events(p.0, e, HEAVY_DMG, t),
                    if is_alive(s2[e]) {
                        p.2.push(e)
                    } else {
                        p.2
                    },
                )
            },
            None => p,
        }
    }
}

/// Each listed survivor that is still alive and not the golem is shoved one cell away
/// from `(cx, cy)` on the board of `gb`, in hit order.
pub open spec fn heavy_shoves(gb: GameState, s: Seq<Entity>, hits: Seq<int>, cx: int, cy: int, t: TierTable) -> (
    Seq<Entity>,
    Seq<Event>,
)
    decreases hits.len(),
{
    if hits.len() == 0 {
        (s, Seq::empty())
    } else {
        let p = heavy_shoves(gb, s, hits.drop_last(), cx, cy, t);
        let e = hits.last();
        let en = p.0[e];
        if is_alive(en) && en.kind != Kind::Boss {
            let dx = sign_spec(en.x - cx);
            let dy = sign_spec(en.y - cy);
            (shove_ents_s(gb, p.0, e, dx, dy, t), p.1 + shove_events_s(gb, p.0, e, dx, dy, t))
        } else {
            p
        }
    }
}

/// Entities and events of the charged fire blast at `(cx, cy)` from state `a`, whose
/// board afterwards is that of `b`.
pub open spec fn heavy_result(a: GameState, b: GameState, cx: int, cy: int, t: TierTable) -> (Seq<Entity>, Seq<Event>) {
    let h = heavy_hits(a.entities@, cells_in_bounds(a, cx, cy, heavy_offsets()), t);
    if t.tier_of(Spell::Heavy) >= 2 {
        let r = heavy_shoves(b, h.0, h.2, cx, cy, t);
        (r.0, h.1 + r.1)
    } else {
        (h.0, h.1)
    }
}

/// Board parts other than the entities agree.
pub open spec fn same_board(a: GameState, b: GameState) -> bool {
    &&& a.w == b.w
    &&& a.h == b.h
    &&& a.tiles == b.tiles
    &&& a.fire == b.fire
    &&& a.burn_t == b.burn_t
}

proof fn lemma_shove_board(a: GameState, b: GameState, s: Seq<Entity>, idx: int, dx: int, dy: int, t: TierTable)
    requires
        same_board(a, b),
    ensures
        shove_ents_s(a, s, idx, dx, dy, t) == shove_ents_s(b, s, idx, dx, dy, t),
        shove_events_s(a, s, idx, dx, dy, t) == shove_events_s(b, s, idx, dx, dy, t),
{
}

/// A shove moves at most the shoved entity, onto a walkable cell, and keeps kinds.
proof fn lemma_shove_pos(g: GameState, s: Seq<Entity>, idx: int, dx: int, dy: int, t: TierTable)
    requires
        0 <= idx < s.len(),
    ensures
        shove_ents_s(g, s, idx, dx, dy, t).len() == s.len(),
        forall|i: int|
            0 <= i < s.len() && i != idx ==> (#[trigger] shove_ents_s(g, s, idx, dx, dy, t)[i]).x == s[i].x
                && shove_ents_s(g, s, idx, dx, dy, t)[i].y == s[i].y,
        forall|i: int|
            0 <= i < s.len() ==> (#[trigger] shove_ents_s(g, s, idx, dx, dy, t)[i]).kind == s[i].kind,
        ({
            let r = shove_ents_s(g, s, idx, dx, dy, t)[idx];
            (r.x == s[idx].x && r.y == s[idx].y) || walkable_spec(g, r.x as int, r.y as int)
        }),
{
    lemma_first_index(s, mage_pred());
    let (nx, ny) = (s[idx].x + dx, s[idx].y + dy);
    let m = moved_to(s, idx, nx, ny);
    lemma_first_index(m, mage_pred());
}

/// The charged fire blast at `(cx, cy)`: each on-board cell of the plus shape (centre,
/// up, down, left, right) hurts the enemy on it by `HEAVY_DMG` and catches fire (oil,
/// floor, spikes) or sets a wooden wall alight; with the blast at tier 2 every
/// surviving, non-golem enemy hit is shoved one cell away from the centre.
pub fn resolve_heavy(g: &mut GameState, cx: i32, cy: i32, ctx: &mut StepCtx)
    requires
        old(g).wf(),
        old(g).has_mage(),
        coord_ok(cx as int),
        coord_ok(cy as int),
    ensures
        final(g).wf(),
        final(g).w == old(g).w,
        final(g).h == old(g).h,
        final(g).room_idx == old(g).room_idx,
        final(g).core == old(g).core,
        final(g).has_mage(),
        final(g).mage_index() == old(g).mage_index(),
        forall|x: int, y: int|
            old(g).inb(x, y) ==> #[trigger] cell_of(*final(g), x, y) == if in_plus(cx as int, cy as int, x, y) {
                blast_step(cell_of(*old(g), x, y))
            } else {
                cell_of(*old(g), x, y)
            },
        final(g).entities@ == heavy_result(*old(g), *final(g), cx as int, cy as int, old(ctx).tiers).0,
        final(ctx).events@ == old(ctx).events@ + heavy_result(*old(g), *final(g), cx as int, cy as int, old(ctx).tiers).1,
        final(ctx).mage_hurt == old(ctx).mage_hurt,
        final(ctx).tiers == old(ctx).tiers,
{
    let ghost g0 = *g;
    let ghost ev0 = ctx.events@;
    let ghost tiers = ctx.tiers;
    let cells = heavy_area(g, cx, cy);
    proof {
        lemma_cells_in_bounds(g0, cx as int, cy as int, heavy_offsets());
    }
    let mut hit: Vec<usize> = Vec::new();
    let mut k: usize = 0;
    while k < cells.len()
        invariant
            k <= cells@.len(),
            cells@ == cells_in_bounds(g0, cx as int, cy as int, heavy_offsets()),
            forall|m: int| 0 <= m < cells@.len() ==> g0.inb((#[trigger] cells@[m]).0 as int, cells@[m].1 as int),
            g0.wf(),
            g.wf(),
            g.w == g0.w,
            g.h == g0.h,
            g.room_idx == g0.room_idx,
            g.core == g0.core,
            g.has_mage(),
            g.mage_index() == g0.mage_index(),
            ctx.tiers == tiers,
            ctx.mage_hurt == old(ctx).mage_hurt,
            g.entities@ == heavy_hits(g0.entities@, cells@.take(k as int), tiers).0,
            ctx.events@ == ev0 + heavy_hits(g0.entities@, cells@.take(k as int), tiers).1,
            hit@.len() == heavy_hits(g0.entities@, cells@.take(k as int), tiers).2.len(),
            forall|j: int|
                0 <= j < hit@.len() ==> #[trigger] hit@[j] as int == heavy_hits(
                    g0.entities@,
                    cells@.take(k as int),
                    tiers,
                ).2[j],
            forall|j: int|
                0 <= j < hit@.len() ==> #[trigger] hit@[j] < g.entities@.len() && g.inb(
                    g.entities@[hit@[j] as int].x as int,
                    g.entities@[hit@[j] as int].y as int,
                ) && g.entities@[hit@[j] as int].kind != Kind::Mage,
            forall|x: int, y: int|
                g0.inb(x, y) ==> #[trigger] cell_of(*g, x, y) == if cells@.take(k as int).contains((x as i32, y as i32)) {
                    blast_step(cell_of(g0, x, y))
                } else {
                    cell_of(g0, x, y)
                },
        decreases cells@.len() - k,
    {
        let (x, y) = cells[k];
        let ghost gs = *g;
        let ghost pre = cells@.take(k as int);
        let ghost cur = cells@.take(k as int + 1);
        proof {
            assert(cur.drop_last() =~= pre);
            assert(cur.last() == (x, y));
            assert(g0.inb(x as int, y as int));
        }
        match enemy_at(g, x, y) {
            Some(e) => {
                proof {
                    lemma_first_index(g.entities@, occupies(x as int, y as int));
                }
                deal_damage(g, e, HEAVY_DMG, ctx);
                if g.entities[e].alive() {
                    hit.push(e);
                }
            },
            None => {},
        }
        let ghost gd = *g;
        blast_cell(g, x, y);
        proof {
            assert forall|xx: int, yy: int| g0.inb(xx, yy) implies #[trigger] cell_of(*g, xx, yy) == if cur.contains(
                (xx as i32, yy as i32),
            ) {
                blast_step(cell_of(g0, xx, yy))
            } else {
                cell_of(g0, xx, yy)
            } by {
                assert(cell_of(gd, xx, yy) == cell_of(gs, xx, yy));
                assert(blast_step(blast_step(cell_of(g0, xx, yy))) == blast_step(cell_of(g0, xx, yy)));
                if cur.contains((xx as i32, yy as i32)) {
                    let m = choose|m: int| 0 <= m < cur.len() && cur[m] == (xx as i32, yy as i32);
                    if m < k {
                        assert(pre[m] == cur[m]);
                    }
                } else {
                    if pre.contains((xx as i32, yy as i32)) {
                        let m = choose|m: int| 0 <= m < pre.len() && pre[m] == (xx as i32, yy as i32);
                        assert(cur[m] == pre[m]);
                    }
                    assert(!(xx == x && yy == y)) by {
                        if xx == x && yy == y {
                            assert(cur[k as int] == (x, y));
                        }
                    }
                }
            }
        }
        k = k + 1;
    }
    proof {
        assert(cells@.take(k as int) =~= cells@);
        assert forall|x: int, y: int| g0.inb(x, y) implies cells@.contains((x as i32, y as i32)) == in_plus(
            cx as int,
            cy as int,
            x,
            y,
        ) by {
            lemma_plus_cells(g0, cx as int, cy as int, x, y);
        }
    }
    let ghost g1 = *g;
    let ghost h1 = heavy_hits(g0.entities@, cells@, tiers);
    proof {
        lemma_spell_names_distinct();
    }
    if ctx.tiers.of(Spell::Heavy.id()) >= 2 {
        let mut j: usize = 0;
        while j < hit.len()
            invariant
                j <= hit@.len(),
                coord_ok(cx as int),
                coord_ok(cy as int),
                hit@.len() == h1.2.len(),
                forall|m: int| 0 <= m < hit@.len() ==> #[trigger] hit@[m] as int == h1.2[m],
                g.wf(),
                g.has_mage(),
                g.mage_index() == g0.mage_index(),
                same_board(*g, g1),
                g.room_idx == g0.room_idx,
                g.core == g0.core,
                g.entities@.len() == g1.entities@.len(),
                ctx.tiers == tiers,
                ctx.mage_hurt == old(ctx).mage_hurt,
                forall|m: int|
                    0 <= m < hit@.len() ==> #[trigger] hit@[m] < g.entities@.len() && g.inb(
                        g.entities@[hit@[m] as int].x as int,
                        g.entities@[hit@[m] as int].y as int,
                    ) && g.entities@[hit@[m] as int].kind != Kind::Mage,
                g.entities@ == heavy_shoves(g1, h1.0, h1.2.take(j as int), cx as int, cy as int, tiers).0,
                ctx.events@ == ev0 + h1.1 + heavy_shoves(g1, h1.0, h1.2.take(j as int), cx as int, cy as int, tiers).1,
            decreases hit@.len() - j,
        {
            let e = hit[j];
            let ghost gs = *g;
            proof {
                assert(h1.2.take(j as int + 1).drop_last() =~= h1.2.take(j as int));
                assert(h1.2.take(j as int + 1).last() == e as int);
            }
            proof {
                assert(hit@[j as int] < g.entities@.len());
                assert(g.inb(g.entities@[e as int].x as int, g.entities@[e as int].y as int));
            }
            if g.entities[e].alive() && g.entities[e].kind != Kind::Boss {
                let ex = g.entities[e].x;
                let ey = g.entities[e].y;
                let dx = sign(ex - cx);
                let dy = sign(ey - cy);
                shove_dir(g, e, dx, dy, ctx);
                proof {
                    lemma_shove_board(gs, g1, gs.entities@, e as int, dx as int, dy as int, tiers);
                    lemma_shove_pos(gs, gs.entities@, e as int, dx as int, dy as int, tiers);
                    assert forall|m: int|
                        0 <= m < hit@.len() implies #[trigger] hit@[m] < g.entities@.len() && g.inb(
                        g.entities@[hit@[m] as int].x as int,
                        g.entities@[hit@[m] as int].y as int,
                    ) && g.entities@[hit@[m] as int].kind != Kind::Mage by {
                        assert(gs.entities@[hit@[m] as int].kind != Kind::Mage);
                    }
                }
            }
            j = j + 1;
        }
        proof {
            assert(h1.2.take(j as int) =~= h1.2);
            lemma_heavy_shoves_board(*g, g1, h1.0, h1.2, cx as int, cy as int, tiers);
            assert(ctx.events@ =~= ev0 + heavy_result(g0, *g, cx as int, cy as int, tiers).1);
        }
    } else {
        proof {
            assert(ctx.events@ =~= ev0 + heavy_result(g0, *g, cx as int, cy as int, tiers).1);
        }
    }
    proof {
        assert forall|x: int, y: int| g0.inb(x, y) implies #[trigger] cell_of(*g, x, y) == if in_plus(
            cx as int,
            cy as int,
            x,
            y,
        ) {
            blast_step(cell_of(g0, x, y))
        } else {
            cell_of(g0, x, y)
        } by {
            assert(cell_of(*g, x, y) == cell_of(g1, x, y));
        }
    }
}

proof fn lemma_heavy_shoves_board(
    b1: GameState,
    b2: GameState,
    s: Seq<Entity>,
    hits: Seq<int>,
    cx: int,
    cy: int,
    t: TierTable,
)
    requires
        same_board(b1, b2),
    ensures
        heavy_shoves(b1, s, hits, cx, cy, t) == heavy_shoves(b2, s, hits, cx, cy, t),
    decreases hits.len(),
{
    if hits.len() > 0 {
        lemma_heavy_shoves_board(b1, b2, s, hits.drop_last(), cx, cy, t);
        let p = heavy_shoves(b1, s, hits.drop_last(), cx, cy, t);
        let e = hits.last();
        let en = p.0[e];
        lemma_shove_board(b1, b2, p.0, e, sign_spec(en.x - cx), sign_spec(en.y - cy), t);
    }
}

/// The blast cells are exactly the on-board cells of the plus shape.
proof fn lemma_plus_cells(g: GameState, cx: int, cy: int, x: int, y: int)
    requires
        g.wf(),
        coord_ok(cx),
        coord_ok(cy),
        g.inb(x, y),
    ensures
        cells_in_bounds(g, cx, cy, heavy_offsets()).contains((x as i32, y as i32)) == in_plus(cx, cy, x, y),
{
    let offs = heavy_offsets();
    let c = cells_in_bounds(g, cx, cy, offs);
    lemma_cells_in_bounds(g, cx, cy, offs);
    if in_plus(cx, cy, x, y) {
        let j = if x == cx && y == cy {
            0int
        } else if x == cx && y == cy - 1 {
            1
        } else if x == cx && y == cy + 1 {
            2
        } else if x == cx - 1 {
            3
        } else {
            4
        };
        assert(offs[j] == (x - cx, y - cy));
        assert(g.inb(cx + offs[j].0, cy + offs[j].1));
    }
    if c.contains((x as i32, y as i32)) {
        let k = choose|k: int| 0 <= k < c.len() && c[k] == (x as i32, y as i32);
        assert(from_offset(g, cx, cy, offs, c[k]));
        let j = choose|j: int|
            #![trigger offs[j]]
            0 <= j < offs.len() && c[k] == ((cx + offs[j].0) as i32, (cy + offs[j].1) as i32) && g.inb(
                cx + offs[j].0,
                cy + offs[j].1,
            );
        assert(x == cx + offs[j].0 && y == cy + offs[j].1);
    }
}

} // verus!

verus! {

/// `e` reports that the unit `id` cast `s`.
pub open spec fn is_cast_event(e: Event, id: u32, s: Spell) -> bool {
    match e {
        Event::SpellCast { id: i, spell: n } => i == id && n == spell_id(s) && n@ == spell_name(s),
        _ => false,
    }
}

/// `c` is a fresh charge of `s` aimed at `t`.
pub open spec fn fresh_channel(c: Option<Channel>, s: Spell, t: Target) -> bool {
    match c {
        Some(ch) => ch.spell == spell_id(s) && ch.spell@ == spell_name(s) && ch.tx == t.x && ch.ty == t.y && !ch.ready && !ch.interrupted,
        None => false,
    }
}

/// The flask (tier 1) paints the target; at tier 2 also the next two cells beyond it,
/// away from the mage.
pub open spec fn oil_target(m: Entity, t: Target, tier2: bool, x: int, y: int) -> bool {
    let dx = sign_spec(t.x - m.x);
    let dy = sign_spec(t.y - m.y);
    (x == t.x && y == t.y) || (tier2 && ((x == t.x + dx && y == t.y + dy) || (x == t.x + 2 * dx && y == t.y + 2
        * dy)))
}

/// The board, entities and events (after the cast report) of casting `spell` at `t`
/// from state `a`, ending in state `b`.
pub open spec fn cast_post(spell: Spell, a: GameState, b: GameState, t: Target, tiers: TierTable, rest: Seq<Event>) -> bool {
    let s = a.entities@;
    let m = a.mage_spec();
    let (tx, ty) = (t.x as int, t.y as int);
    match spell {
        Spell::Bolt => same_board(a, b) && match ray_hit(a, m.x as int, m.y as int, tx, ty) {
            Some(v) => 0 <= v < s.len() && if s[v].kind != Kind::Mage {
                b.entities@ == damage_ents(s, v, BOLT_DMG, tiers) && rest == damage_events(s, v, BOLT_DMG, tiers)
            } else {
                b.entities@ == s && rest == Seq::<Event>::empty()
            },
            None => b.entities@ == s && rest == Seq::<Event>::empty(),
        },
        Spell::Push => {
            let e = enemy_at_spec(a, tx, ty).unwrap();
            same_board(a, b) && b.entities@ == push_ents(a, e, tiers) && rest == push_events(a, e, tiers)
        },
        Spell::Hook => {
            let e = enemy_at_spec(a, tx, ty).unwrap();
            same_board(a, b) && b.entities@ == pull_ents(a, e, tiers) && rest == pull_events(a, e, tiers)
        },
        Spell::Fire => {
            let (s1, ev1) = match enemy_at_spec(a, tx, ty) {
                Some(e) => (damage_ents(s, e, FIRE_DMG, tiers), damage_events(s, e, FIRE_DMG, tiers)),
                None => (s, Seq::<Event>::empty()),
            };
            &&& b.w == a.w && b.h == a.h && b.tiles == a.tiles && b.burn_t == a.burn_t
            &&& if a.tile(tx, ty) == Tile::Oil {
                &&& fire_after_ignite(a, b, tx, ty)
                &&& ents_burned(s1, b.entities@)
                &&& b.entities@ == ignite_ents(s1, reach_set(a, tx, ty), tiers)
                &&& rest == ev1 + flood_events(s1, flood_order(a, tx, ty), tiers)
            } else {
                &&& b.entities@ == s1
                &&& rest == ev1
                &&& b.fire@.len() == a.fire@.len()
                &&& forall|y: int| 0 <= y < a.h ==> (#[trigger] b.fire@[y])@.len() == a.fire@[y]@.len()
                &&& forall|x: int, y: int|
                    a.inb(x, y) ==> #[trigger] b.fire_at(x, y) == if x == tx && y == ty && tiers.tier_of(Spell::Fire)
                        >= 2 && !blocks_spec(a.tile(tx, ty)) {
                        FIRE_DUR
                    } else {
                        a.fire_at(x, y)
                    }
            }
        },
        Spell::OilFlask => {
            &&& b.w == a.w && b.h == a.h && b.fire == a.fire && b.burn_t == a.burn_t
            &&& b.entities@ == s
            &&& rest == Seq::<Event>::empty()
            &&& forall|x: int, y: int|
                a.inb(x, y) ==> #[trigger] cell_of(b, x, y) == if oil_target(m, t, tiers.tier_of(Spell::OilFlask) >= 2, x, y)
                    && a.tile(x, y) == Tile::Floor {
                    (Tile::Oil, a.fire_at(x, y), a.burn_at(x, y))
                } else {
                    cell_of(a, x, y)
                }
        },
        Spell::Haste => {
            &&& same_board(a, b)
            &&& b.entities@ == s.update(a.mage_index(), Entity { haste_turns: HASTE_GRANT, ..m })
            &&& rest == seq![Event::HasteGained { id: m.id }]
        },
        Spell::Heavy => {
            &&& b.w == a.w && b.h == a.h
            &&& forall|x: int, y: int|
                a.inb(x, y) ==> #[trigger] cell_of(b, x, y) == if in_plus(tx, ty, x, y) {
                    blast_step(cell_of(a, x, y))
                } else {
                    cell_of(a, x, y)
                }
            &&& b.entities@ == heavy_result(a, b, tx, ty, tiers).0
            &&& rest == heavy_result(a, b, tx, ty, tiers).1
        },
    }
}

/// Paints oil on `(x, y)` when it is an on-board floor cell.
fn paint_oil(g: &mut GameState, x: i32, y: i32)
    requires
        old(g).grids_ok(),
    ensures
        final(g).grids_ok(),
        final(g).w == old(g).w,
        final(g).h == old(g).h,
        final(g).entities == old(g).entities,
        final(g).fire == old(g).fire,
        final(g).burn_t == old(g).burn_t,
        final(g).room_idx == old(g).room_idx,
        final(g).core == old(g).core,
        forall|xx: int, yy: int|
            old(g).inb(xx, yy) ==> #[trigger] cell_of(*final(g), xx, yy) == if xx == x && yy == y && old(g).tile(
                xx,
                yy,
            ) == Tile::Floor {
                (Tile::Oil, old(g).fire_at(xx, yy), old(g).burn_at(xx, yy))
            } else {
                cell_of(*old(g), xx, yy)
            },
{
    let ghost g0 = *g;
    proof {
        lemma_board_ok(g0);
    }
    if in_bounds(g, x, y) && g.tiles[y as usize][x as usize] == Tile::Floor {
        let ghost gb = *g;
        g.tiles[y as usize][x as usize] = Tile::Oil;
        proof {
            assert forall|r: int| 0 <= r < g0.h implies (#[trigger] g.tiles@[r])@.len() == g0.w by {
                if r != y {
                    assert(g.tiles@[r] == gb.tiles@[r]);
                }
            }
            assert forall|xx: int, yy: int| g0.inb(xx, yy) implies #[trigger] cell_of(*g, xx, yy) == if xx == x && yy
                == y && g0.tile(xx, yy) == Tile::Floor {
                (Tile::Oil, g0.fire_at(xx, yy), g0.burn_at(xx, yy))
            } else {
                cell_of(g0, xx, yy)
            } by {
                if yy != y {
                    assert(g.tiles@[yy] == gb.tiles@[yy]);
                }
            }
            assert forall|xx: int, yy: int| g.inb(xx, yy) implies cell_ok(#[trigger] cell_of(*g, xx, yy)) by {
                assert(cell_ok(cell_of(g0, xx, yy)));
            }
            lemma_board_ok(*g);
        }
    }
}

/// Starts charging a two-turn spell at `t` (resolved on release, not here).
pub fn initiate(spell: Spell, g: &mut GameState, t: Target, ctx: &mut StepCtx)
    requires
        old(g).wf(),
        old(g).has_mage(),
    ensures
        final(g).wf(),
        same_board(*old(g), *final(g)),
        final(g).room_idx == old(g).room_idx,
        final(g).core == old(g).core,
        final(g).has_mage(),
        final(g).mage_index() == old(g).mage_index(),
        final(g).entities@.len() == old(g).entities@.len(),
        forall|i: int|
            0 <= i < old(g).entities@.len() && i != old(g).mage_index() ==> #[trigger] final(g).entities@[i]
                == old(g).entities@[i],
        fresh_channel(final(g).mage_spec().channel, spell, t),
        final(g).mage_spec() == (Entity { channel: final(g).mage_spec().channel, ..old(g).mage_spec() }),
        final(ctx).events@.len() == old(ctx).events@.len() + 1,
        final(ctx).events@.subrange(0, old(ctx).events@.len() as int) == old(ctx).events@,
        is_cast_event(final(ctx).events@.last(), old(g).mage_spec().id, spell),
        final(ctx).mage_hurt == old(ctx).mage_hurt,
        final(ctx).tiers == old(ctx).tiers,
{
    let ghost g0 = *g;
    proof {
        lemma_first_index(g.entities@, mage_pred());
    }
    let mage = g.mage_mut();
    mage.channel = Some(Channel { spell: spell.id(), tx: t.x, ty: t.y, ready: false, interrupted: false });
    let id = mage.id;
    ctx.events.push(Event::SpellCast { id, spell: spell.id() });
    proof {
        assert(ctx.events@.subrange(0, old(ctx).events@.len() as int) =~= old(ctx).events@);
        crate::movement::lemma_ents_kinds(g0.entities@, g.entities@);
        assert forall|i: int| 0 <= i < g.entities@.len() implies is_alive_enemy(#[trigger] g0.entities@[i])
            == is_alive_enemy(g.entities@[i]) by {}
        lemma_count_same(g0.entities@, g.entities@);
        assert forall|i: int| 0 <= i < g.entities@.len() implies ent_ok(#[trigger] g.entities@[i]) by {
            assert(ent_ok(g0.entities@[i]));
        }
        crate::state::lemma_grids_same(*g, g0);
    }
}

} // verus!

verus! {

/// Room, core and mage are kept and the state stays well formed.
pub open spec fn kept_frame(a: GameState, b: GameState) -> bool {
    &&& b.wf()
    &&& b.room_idx == a.room_idx
    &&& b.core == a.core
    &&& b.has_mage()
    &&& b.mage_index() == a.mage_index()
}

/// The events after `ev0` in `ev`.
pub open spec fn added(ev: Seq<Event>, ev0: Seq<Event>) -> Seq<Event> {
    ev.subrange(ev0.len() as int, ev.len() as int)
}

fn cast_bolt(g: &mut GameState, t: Target, ctx: &mut StepCtx)
    requires
        old(g).wf(),
        old(g).has_mage(),
        validate_spec(Spell::Bolt, *old(g), t) is Ok,
    ensures
        kept_frame(*old(g), *final(g)),
        extends(final(ctx).events@, old(ctx).events@),
        cast_post(Spell::Bolt, *old(g), *final(g), t, old(ctx).tiers, added(final(ctx).events@, old(ctx).events@)),
        final(ctx).mage_hurt == old(ctx).mage_hurt,
        final(ctx).tiers == old(ctx).tiers,
{
    let ghost g0 = *g;
    let ghost ev0 = ctx.events@;
    proof {
        lemma_first_index(g.entities@, mage_pred());
        assert(ent_ok(g.entities@[g.mage_index()]));
        let e = enemy_at_spec(g0, t.x as int, t.y as int).unwrap();
        lemma_first_index(g0.entities@, occupies(t.x as int, t.y as int));
        assert(ent_ok(g0.entities@[e]));
    }
    let (mx, my) = mage_pos(g);
    let victim = first_unit_on_ray(g, mx, my, t.x, t.y);
    proof {
        lemma_ray_hit(g0, mx as int, my as int, t.x as int, t.y as int, opt_int(victim));
    }
    match victim {
        Some(v) => {
            if !g.entities[v].kind.is_mage() {
                deal_damage(g, v, BOLT_DMG, ctx);
                proof {
                    assert(added(ctx.events@, ev0) =~= damage_events(g0.entities@, v as int, BOLT_DMG, ctx.tiers));
                }
            } else {
                proof {
                    assert(added(ctx.events@, ev0) =~= Seq::<Event>::empty());
                }
            }
        },
        None => {
            proof {
                assert(added(ctx.events@, ev0) =~= Seq::<Event>::empty());
            }
        },
    }
    proof {
        assert(ctx.events@.subrange(0, ev0.len() as int) =~= ev0);
        crate::state::lemma_grids_same(*g, g0);
    }
}

fn cast_push(g: &mut GameState, t: Target, ctx: &mut StepCtx)
    requires
        old(g).wf(),
        old(g).has_mage(),
        validate_spec(Spell::Push, *old(g), t) is Ok,
    ensures
        kept_frame(*old(g), *final(g)),
        extends(final(ctx).events@, old(ctx).events@),
        cast_post(Spell::Push, *old(g), *final(g), t, old(ctx).tiers, added(final(ctx).events@, old(ctx).events@)),
        final(ctx).mage_hurt == old(ctx).mage_hurt,
        final(ctx).tiers == old(ctx).tiers,
{
    let ghost ev0 = ctx.events@;
    let ghost g0 = *g;
    let e = enemy_at(g, t.x, t.y).unwrap();
    do_push(g, e, ctx);
    proof {
        assert(ctx.events@.subrange(0, ev0.len() as int) =~= ev0);
        assert(added(ctx.events@, ev0) =~= push_events(g0, e as int, ctx.tiers));
    }
}

fn cast_hook(g: &mut GameState, t: Target, ctx: &mut StepCtx)
    requires
        old(g).wf(),
        old(g).has_mage(),
        validate_spec(Spell::Hook, *old(g), t) is Ok,
    ensures
        kept_frame(*old(g), *final(g)),
        extends(final(ctx).events@, old(ctx).events@),
        cast_post(Spell::Hook, *old(g), *final(g), t, old(ctx).tiers, added(final(ctx).events@, old(ctx).events@)),
        final(ctx).mage_hurt == old(ctx).mage_hurt,
        final(ctx).tiers == old(ctx).tiers,
{
    let ghost ev0 = ctx.events@;
    let ghost g0 = *g;
    let e = enemy_at(g, t.x, t.y).unwrap();
    do_pull(g, e, ctx);
    proof {
        assert(ctx.events@.subrange(0, ev0.len() as int) =~= ev0);
        assert(added(ctx.events@, ev0) =~= pull_events(g0, e as int, ctx.tiers));
    }
}

fn cast_fire(g: &mut GameState, t: Target, ctx: &mut StepCtx)
    requires
        old(g).wf(),
        old(g).has_mage(),
        validate_spec(Spell::Fire, *old(g), t) is Ok,
    ensures
        kept_frame(*old(g), *final(g)),
        extends(final(ctx).events@, old(ctx).events@),
        cast_post(Spell::Fire, *old(g), *final(g), t, old(ctx).tiers, added(final(ctx).events@, old(ctx).events@)),
        final(ctx).mage_hurt == old(ctx).mage_hurt,
        final(ctx).tiers == old(ctx).tiers,
{
    let ghost g0 = *g;
    let ghost ev0 = ctx.events@;
    proof {
        lemma_spell_names_distinct();
    }
    match enemy_at(g, t.x, t.y) {
        Some(e) => {
            deal_damage(g, e, FIRE_DMG, ctx);
            proof {
                assert(added(ctx.events@, ev0) =~= damage_events(g0.entities@, e as int, FIRE_DMG, ctx.tiers));
            }
        },
        None => {
            proof {
                assert(added(ctx.events@, ev0) =~= Seq::<Event>::empty());
            }
        },
    }
    let ghost g1 = *g;
    let ghost ev2 = ctx.events@;
    proof {
        assert(ev2.subrange(0, ev0.len() as int) =~= ev0);
    }
    if g.tiles[t.y as usize][t.x as usize] == Tile::Oil {
        ignite_oil(g, t.x, t.y, ctx);
        proof {
            lemma_ignite_board(g1, g0, *g, t.x as int, t.y as int);
            assert forall|p: Seq<(int, int)>| #[trigger] oil_path(g1, p) == oil_path(g0, p) by {}
            assert forall|x: int, y: int| #[trigger] reach_set(g1, t.x as int, t.y as int)(x, y) == reach_set(
                g0,
                t.x as int,
                t.y as int,
            )(x, y) by {
                let (sx, sy) = (t.x as int, t.y as int);
                if oil_reach(g1, sx, sy, x, y) {
                    let p = choose|p: Seq<(int, int)>| #[trigger] oil_path(g1, p) && p[0] == (sx, sy) && p.last() == (x, y);
                    assert(oil_path(g0, p));
                }
                if oil_reach(g0, sx, sy, x, y) {
                    let p = choose|p: Seq<(int, int)>| #[trigger] oil_path(g0, p) && p[0] == (sx, sy) && p.last() == (x, y);
                    assert(oil_path(g1, p));
                }
            }
            assert(reach_set(g1, t.x as int, t.y as int) =~= reach_set(g0, t.x as int, t.y as int));
            assert(added(ctx.events@, ev0).subrange(0, (ev2.len() - ev0.len()) as int) =~= added(ev2, ev0));
            assert(ctx.events@.subrange(0, ev0.len() as int) =~= ev2.subrange(0, ev0.len() as int));
            let rest = added(ctx.events@, ev0);
            assert(rest.subrange((ev2.len() - ev0.len()) as int, rest.len() as int) =~= ctx.events@.subrange(
                ev2.len() as int,
                ctx.events@.len() as int,
            ));
            crate::terrain::lemma_flood_board(g1, g0, t.x as int, t.y as int, (9 * (g0.w * g0.h) + 1) as nat);
            assert(rest =~= added(ev2, ev0) + ctx.events@.subrange(ev2.len() as int, ctx.events@.len() as int));
        }
    } else if ctx.tiers.of(Spell::Fire.id()) >= 2 && !blocks_move(g, t.x, t.y) {
        g.fire[t.y as usize][t.x as usize] = FIRE_DUR;
        proof {
            crate::terrain::lemma_fire_set_ok(g1, *g, t.x as int, t.y as int);
        }
    } else {
        proof {
            crate::state::lemma_grids_same(*g, g0);
        }
    }
}

/// Ignition depends on the board only.
proof fn lemma_ignite_board(a1: GameState, a2: GameState, b: GameState, sx: int, sy: int)
    requires
        same_board(a1, a2),
        fire_after_ignite(a1, b, sx, sy),
    ensures
        fire_after_ignite(a2, b, sx, sy),
{
    assert forall|p: Seq<(int, int)>| #[trigger] oil_path(a1, p) == oil_path(a2, p) by {}
    assert forall|x: int, y: int| #[trigger] oil_reach(a1, sx, sy, x, y) == oil_reach(a2, sx, sy, x, y) by {
        if oil_reach(a1, sx, sy, x, y) {
            let p = choose|p: Seq<(int, int)>| #[trigger] oil_path(a1, p) && p[0] == (sx, sy) && p.last() == (x, y);
            assert(oil_path(a2, p));
        }
        if oil_reach(a2, sx, sy, x, y) {
            let p = choose|p: Seq<(int, int)>| #[trigger] oil_path(a2, p) && p[0] == (sx, sy) && p.last() == (x, y);
            assert(oil_path(a1, p));
        }
    }
}

fn cast_oil(g: &mut GameState, t: Target, ctx: &mut StepCtx)
    requires
        old(g).wf(),
        old(g).has_mage(),
        validate_spec(Spell::OilFlask, *old(g), t) is Ok,
    ensures
        kept_frame(*old(g), *final(g)),
        extends(final(ctx).events@, old(ctx).events@),
        cast_post(Spell::OilFlask, *old(g), *final(g), t, old(ctx).tiers, added(final(ctx).events@, old(ctx).events@)),
        final(ctx).mage_hurt == old(ctx).mage_hurt,
        final(ctx).tiers == old(ctx).tiers,
{
    let ghost g0 = *g;
    proof {
        lemma_first_index(g.entities@, mage_pred());
        assert(ent_ok(g.entities@[g.mage_index()]));
        lemma_spell_names_distinct();
    }
    let (mx, my) = mage_pos(g);
    paint_oil(g, t.x, t.y);
    if ctx.tiers.of(Spell::OilFlask.id()) >= 2 {
        let dx = sign(t.x - mx);
        let dy = sign(t.y - my);
        let ghost gb = *g;
        paint_oil(g, t.x + dx, t.y + dy);
        let ghost gc = *g;
        paint_oil(g, t.x + 2 * dx, t.y + 2 * dy);
        proof {
            assert forall|x: int, y: int| g0.inb(x, y) implies #[trigger] cell_of(*g, x, y) == if oil_target(
                g0.mage_spec(),
                t,
                true,
                x,
                y,
            ) && g0.tile(x, y) == Tile::Floor {
                (Tile::Oil, g0.fire_at(x, y), g0.burn_at(x, y))
            } else {
                cell_of(g0, x, y)
            } by {
                assert(cell_of(gb, x, y) == cell_of(gb, x, y));
                assert(cell_of(gc, x, y) == cell_of(gc, x, y));
            }
        }
    }
    proof {
        lemma_extends_refl(ctx.events@);
        assert(added(ctx.events@, ctx.events@) =~= Seq::<Event>::empty());
    }
}

fn cast_haste(g: &mut GameState, t: Target, ctx: &mut StepCtx)
    requires
        old(g).wf(),
        old(g).has_mage(),
    ensures
        kept_frame(*old(g), *final(g)),
        extends(final(ctx).events@, old(ctx).events@),
        cast_post(Spell::Haste, *old(g), *final(g), t, old(ctx).tiers, added(final(ctx).events@, old(ctx).events@)),
        final(ctx).mage_hurt == old(ctx).mage_hurt,
        final(ctx).tiers == old(ctx).tiers,
{
    let ghost g0 = *g;
    let ghost ev0 = ctx.events@;
    proof {
        lemma_first_index(g.entities@, mage_pred());
    }
    let mage = g.mage_mut();
    mage.haste_turns = HASTE_GRANT;
    let id = mage.id;
    ctx.events.push(Event::HasteGained { id });
    proof {
        crate::movement::lemma_ents_kinds(g0.entities@, g.entities@);
        assert forall|i: int| 0 <= i < g.entities@.len() implies is_alive_enemy(#[trigger] g0.entities@[i])
            == is_alive_enemy(g.entities@[i]) by {}
        lemma_count_same(g0.entities@, g.entities@);
        crate::state::lemma_count_bound(g.entities@);
        assert forall|i: int| 0 <= i < g.entities@.len() implies ent_ok(#[trigger] g.entities@[i]) by {
            assert(ent_ok(g0.entities@[i]));
        }
        crate::state::lemma_grids_same(*g, g0);
        assert(ctx.events@.subrange(0, ev0.len() as int) =~= ev0);
        assert(added(ctx.events@, ev0) =~= seq![Event::HasteGained { id }]);
    }
}

fn cast_heavy(g: &mut GameState, t: Target, ctx: &mut StepCtx)
    requires
        old(g).wf(),
        old(g).has_mage(),
        validate_spec(Spell::Heavy, *old(g), t) is Ok,
    ensures
        kept_frame(*old(g), *final(g)),
        extends(final(ctx).events@, old(ctx).events@),
        cast_post(Spell::Heavy, *old(g), *final(g), t, old(ctx).tiers, added(final(ctx).events@, old(ctx).events@)),
        final(ctx).mage_hurt == old(ctx).mage_hurt,
        final(ctx).tiers == old(ctx).tiers,
{
    let ghost ev0 = ctx.events@;
    let ghost g0 = *g;
    resolve_heavy(g, t.x, t.y, ctx);
    proof {
        assert(ctx.events@.subrange(0, ev0.len() as int) =~= ev0);
        assert(added(ctx.events@, ev0) =~= heavy_result(g0, *g, t.x as int, t.y as int, ctx.tiers).1);
    }
}

/// Casts an immediate spell at a validated target. Reports the cast, then:
/// bolt hits the first unit on the ray (a unit in front shields the one behind);
/// push and hook move the target enemy; fire burns the enemy on the cell and ignites
/// oil there (or, at tier 2, leaves fire on other open ground); the flask paints oil;
/// haste grants hasted turns; the charged blast resolves at once.
pub fn cast(spell: Spell, g: &mut GameState, t: Target, ctx: &mut StepCtx)
    requires
        old(g).wf(),
        old(g).has_mage(),
        validate_spec(spell, *old(g), t) is Ok,
    ensures
        kept_frame(*old(g), *final(g)),
        final(ctx).events@.len() > old(ctx).events@.len(),
        final(ctx).events@.subrange(0, old(ctx).events@.len() as int) == old(ctx).events@,
        is_cast_event(final(ctx).events@[old(ctx).events@.len() as int], old(g).mage_spec().id, spell),
        cast_post(
            spell,
            *old(g),
            *final(g),
            t,
            old(ctx).tiers,
            final(ctx).events@.subrange(old(ctx).events@.len() + 1int, final(ctx).events@.len() as int),
        ),
        final(ctx).mage_hurt == old(ctx).mage_hurt,
        final(ctx).tiers == old(ctx).tiers,
        times_kept(old(g).entities@, final(g).entities@),
{
    let ghost g0 = *g;
    let ghost ev0 = ctx.events@;
    let mage_id = g.mage().id;
    ctx.events.push(Event::SpellCast { id: mage_id, spell: spell.id() });
    let ghost ev1 = ctx.events@;
    match spell {
        Spell::Bolt => cast_bolt(g, t, ctx),
        Spell::Push => cast_push(g, t, ctx),
        Spell::Hook => cast_hook(g, t, ctx),
        Spell::Fire => cast_fire(g, t, ctx),
        Spell::OilFlask => cast_oil(g, t, ctx),
        Spell::Haste => cast_haste(g, t, ctx),
        Spell::Heavy => cast_heavy(g, t, ctx),
    }
    proof {
        assert(ctx.events@.subrange(0, ev0.len() as int) =~= ev0);
        assert(ctx.events@[ev0.len() as int] == ev1[ev0.len() as int]);
        assert(added(ctx.events@, ev1) =~= ctx.events@.subrange(ev0.len() + 1int, ctx.events@.len() as int));
        lemma_cast_times(spell, g0, *g, t, ctx.tiers, ctx.events@.subrange(ev0.len() + 1int, ctx.events@.len() as int));
    }
}

} // verus!

verus! {

/// Neighbour scan order of chain lightning: clockwise from north.
pub const CHAIN_SCAN: [(i32, i32); 8] = [(0, -1), (1, -1), (1, 0), (1, 1), (0, 1), (-1, 1), (-1, 0), (-1, -1)];

pub open spec fn chain_scan_order() -> Seq<(i32, i32)> {
    seq![(0i32, -1i32), (1i32, -1i32), (1i32, 0i32), (1i32, 1i32), (0i32, 1i32), (-1i32, 1i32), (-1i32, 0i32), (-1i32, -1i32)]
}

/// Enemies around `(fx, fy)` in scan order (first `k` directions), skipping ids in `hit`.
pub open spec fn chain_scan(g: GameState, fx: int, fy: int, hit: Seq<u32>, k: int) -> Seq<usize>
    decreases k,
{
    if k <= 0 {
        Seq::empty()
    } else {
        let p = chain_scan(g, fx, fy, hit, k - 1);
        let d = chain_scan_order()[k - 1];
        let (x, y) = (fx + d.0, fy + d.1);
        if g.inb(x, y) {
            match enemy_at_spec(g, x, y) {
                Some(e) => if !hit.contains(g.entities@[e].id) {
                    p.push(e as usize)
                } else {
                    p
                },
                None => p,
            }
        } else {
            p
        }
    }
}

/// Entity indices ordered by id, never decreasing.
pub open spec fn sorted_by_id(g: GameState, v: Seq<usize>) -> bool {
    forall|i: int, j: int| 0 <= i < j < v.len() ==> g.entities@[v[i] as int].id <= g.entities@[v[j] as int].id
}

/// Where the stable insertion by id puts an entry of id `idv` into `s` (its first `p`
/// entries considered): just before the trailing entries of larger id.
pub open spec fn id_slot(g: GameState, s: Seq<usize>, idv: u32, p: int) -> int
    decreases p,
{
    if p > 0 && g.entities@[s[p - 1] as int].id > idv {
        id_slot(g, s, idv, p - 1)
    } else {
        p
    }
}

/// `s` sorted by entity id, entries of equal id keeping their order (a stable sort).
pub open spec fn id_sorted(g: GameState, s: Seq<usize>) -> Seq<usize>
    decreases s.len(),
{
    if s.len() == 0 {
        Seq::empty()
    } else {
        let t = id_sorted(g, s.drop_last());
        let v = s.last();
        t.insert(id_slot(g, t, g.entities@[v as int].id, t.len() as int), v)
    }
}

/// Index lists with the same entries, both in id order, are equal when the entities'
/// ids are distinct: the order `chain_candidates` gives is then fully determined.
pub proof fn law_id_order_unique(g: GameState, a: Seq<usize>, b: Seq<usize>)
    requires
        a.to_multiset() == b.to_multiset(),
        sorted_by_id(g, a),
        sorted_by_id(g, b),
        forall|k: int| 0 <= k < a.len() ==> #[trigger] a[k] < g.entities@.len(),
        forall|i: int, j: int|
            0 <= i < g.entities@.len() && 0 <= j < g.entities@.len() && i != j ==> #[trigger] g.entities@[i].id
                != #[trigger] g.entities@[j].id,
    ensures
        a == b,
    decreases a.len(),
{
    broadcast use vstd::seq_lib::group_to_multiset_ensures;
    assert(a.len() == a.to_multiset().len());
    assert(b.len() == b.to_multiset().len());
    if a.len() > 0 {
        assert(a.to_multiset().contains(a[0]));
        assert(b.contains(a[0]));
        assert(b.len() > 0);
        assert(b.to_multiset().contains(b[0]));
        assert(a.contains(b[0]));
        let ib = choose|k: int| 0 <= k < b.len() && b[k] == a[0];
        let ia = choose|k: int| 0 <= k < a.len() && a[k] == b[0];
        assert(g.entities@[b[0] as int].id <= g.entities@[b[ib] as int].id);
        assert(g.entities@[a[0] as int].id <= g.entities@[a[ia] as int].id);
        assert(b[0] < g.entities@.len());
        assert(a[0] == b[0]);
        let a1 = a.remove(0);
        let b1 = b.remove(0);
        assert(a1.to_multiset() == a.to_multiset().remove(a[0]));
        assert(b1.to_multiset() == b.to_multiset().remove(b[0]));
        assert forall|k: int| 0 <= k < a1.len() implies #[trigger] a1[k] < g.entities@.len() by {
            assert(a1[k] == a[k + 1]);
        }
        assert(sorted_by_id(g, a1)) by {
            assert forall|i: int, j: int| 0 <= i < j < a1.len() implies g.entities@[a1[i] as int].id
                <= g.entities@[a1[j] as int].id by {
                assert(a1[i] == a[i + 1] && a1[j] == a[j + 1]);
            }
        }
        assert(sorted_by_id(g, b1)) by {
            assert forall|i: int, j: int| 0 <= i < j < b1.len() implies g.entities@[b1[i] as int].id
                <= g.entities@[b1[j] as int].id by {
                assert(b1[i] == b[i + 1] && b1[j] == b[j + 1]);
            }
        }
        law_id_order_unique(g, a1, b1);
        assert(a =~= b) by {
            assert forall|k: int| 0 <= k < a.len() implies a[k] == b[k] by {
                if k > 0 {
                    assert(a[k] == a1[k - 1] && b[k] == b1[k - 1]);
                }
            }
        }
    } else {
        assert(b.len() == 0);
        assert(a =~= b);
    }
}

fn contains_id(hit: &[u32], id: u32) -> (r: bool)
    ensures
        r == hit@.contains(id),
{
    let mut i: usize = 0;
    while i < hit.len()
        invariant
            i <= hit@.len(),
            forall|j: int| 0 <= j < i ==> hit@[j] != id,
        decreases hit@.len() - i,
    {
        if hit[i] == id {
            return true;
        }
        i = i + 1;
    }
    false
}

/// Chain-lightning jump candidates around `(from_x, from_y)`: the enemies on the eight
/// neighbouring cells (scanned clockwise from north) whose ids are not in `hit`,
/// ordered by entity id, equal ids in scan order (see `id_sorted`).
pub fn chain_candidates(g: &GameState, from_x: i32, from_y: i32, hit: &[u32]) -> (r: Vec<usize>)
    requires
        g.wf(),
        coord_ok(from_x as int),
        coord_ok(from_y as int),
    ensures
        r@.to_multiset() == chain_scan(*g, from_x as int, from_y as int, hit@, 8).to_multiset(),
        sorted_by_id(*g, r@),
        r@ == id_sorted(*g, chain_scan(*g, from_x as int, from_y as int, hit@, 8)),
        forall|k: int| 0 <= k < r@.len() ==> #[trigger] r@[k] < g.entities@.len(),
{
    let scan: [(i32, i32); 8] = CHAIN_SCAN;
    proof {
        assert(scan@ =~= chain_scan_order());
    }
    let mut out: Vec<usize> = Vec::new();
    let mut k: usize = 0;
    while k < 8
        invariant
            k <= 8,
            scan@ == chain_scan_order(),
            coord_ok(from_x as int),
            coord_ok(from_y as int),
            out@ == chain_scan(*g, from_x as int, from_y as int, hit@, k as int),
            forall|m: int| 0 <= m < out@.len() ==> #[trigger] out@[m] < g.entities@.len(),
        decreases 8 - k,
    {
        let (dx, dy) = scan[k];
        let x = from_x + dx;
        let y = from_y + dy;
        if in_bounds(g, x, y) {
            match enemy_at(g, x, y) {
                Some(e) => {
                    if !contains_id(hit, g.entities[e].id) {
                        out.push(e);
                    }
                },
                None => {},
            }
        }
        k = k + 1;
    }
    let mut sorted: Vec<usize> = Vec::new();
    let mut i: usize = 0;
    proof {
        assert(out@.take(0) =~= Seq::<usize>::empty());
        assert(sorted@ =~= Seq::<usize>::empty());
        broadcast use vstd::seq_lib::group_to_multiset_ensures;
    }
    while i < out.len()
        invariant
            i <= out@.len(),
            forall|m: int| 0 <= m < out@.len() ==> #[trigger] out@[m] < g.entities@.len(),
            forall|m: int| 0 <= m < sorted@.len() ==> #[trigger] sorted@[m] < g.entities@.len(),
            sorted@.to_multiset() == out@.take(i as int).to_multiset(),
            sorted_by_id(*g, sorted@),
            sorted@ == id_sorted(*g, out@.take(i as int)),
        decreases out@.len() - i,
    {
        let v = out[i];
        let idv = g.entities[v].id;
        let mut pos: usize = sorted.len();
        while pos > 0 && g.entities[sorted[pos - 1]].id > idv
            invariant
                pos <= sorted@.len(),
                v < g.entities@.len(),
                idv == g.entities@[v as int].id,
                forall|m: int| 0 <= m < sorted@.len() ==> #[trigger] sorted@[m] < g.entities@.len(),
                forall|q: int| pos <= q < sorted@.len() ==> g.entities@[#[trigger] sorted@[q] as int].id > idv,
                id_slot(*g, sorted@, idv, pos as int) == id_slot(*g, sorted@, idv, sorted@.len() as int),
            decreases pos,
        {
            pos = pos - 1;
        }
        let ghost before = sorted@;
        sorted.insert(pos, v);
        proof {
            vstd::seq_lib::to_multiset_insert(before, pos as int, v);
            assert(out@.take(i as int + 1) =~= out@.take(i as int).push(v));
            assert(out@.take(i as int + 1).drop_last() =~= out@.take(i as int));
            assert(id_slot(*g, before, idv, before.len() as int) == pos);
            vstd::seq_lib::to_multiset_build(out@.take(i as int), v);
            assert forall|a: int, b: int| 0 <= a < b < sorted@.len() implies g.entities@[sorted@[a] as int].id
                <= g.entities@[sorted@[b] as int].id by {
                if a < pos && b == pos {
                    assert(sorted@[a] == before[a]);
                    if a < pos - 1 {
                        assert(g.entities@[before[a] as int].id <= g.entities@[before[pos - 1] as int].id);
                    }
                } else if a == pos {
                    assert(sorted@[b] == before[b - 1]);
                } else if a < pos {
                    assert(sorted@[a] == before[a]);
                    if b < pos {
                        assert(sorted@[b] == before[b]);
                    } else {
                        assert(sorted@[b] == before[b - 1]);
                    }
                } else {
                    assert(sorted@[a] == before[a - 1]);
                    assert(sorted@[b] == before[b - 1]);
                }
            }
        }
        i = i + 1;
    }
    proof {
        assert(out@.take(i as int) =~= out@);
    }
    sorted
}

} // verus!

verus! {

proof fn lemma_heavy_hits_times(s: Seq<Entity>, cells: Seq<(i32, i32)>, t: TierTable)
    ensures
        times_kept(s, heavy_hits(s, cells, t).0),
        frame_kept(s, heavy_hits(s, cells, t).0),
        forall|k: int|
            0 <= k < heavy_hits(s, cells, t).2.len() ==> 0 <= #[trigger] heavy_hits(s, cells, t).2[k] < s.len()
                && s[heavy_hits(s, cells, t).2[k]].kind != Kind::Mage,
    decreases cells.len(),
{
    if cells.len() > 0 {
        lemma_heavy_hits_times(s, cells.drop_last(), t);
        let p = heavy_hits(s, cells.drop_last(), t);
        let c = cells.last();
        lemma_first_index(p.0, occupies(c.0 as int, c.1 as int));
        match enemy_at_s(p.0, c.0 as int, c.1 as int) {
            Some(e) => {
                crate::damage::lemma_damage_times(p.0, e, HEAVY_DMG, t);
                lemma_times_kept_trans(s, p.0, damage_ents(p.0, e, HEAVY_DMG, t));
                crate::state::lemma_frame_kept_trans(s, p.0, damage_ents(p.0, e, HEAVY_DMG, t));
            },
            None => {},
        }
    }
}

proof fn lemma_heavy_shoves_times(gb: GameState, s: Seq<Entity>, hits: Seq<int>, cx: int, cy: int, t: TierTable)
    requires
        forall|k: int| 0 <= k < hits.len() ==> 0 <= #[trigger] hits[k] < s.len() && s[hits[k]].kind != Kind::Mage,
    ensures
        times_kept(s, heavy_shoves(gb, s, hits, cx, cy, t).0),
        frame_kept(s, heavy_shoves(gb, s, hits, cx, cy, t).0),
    decreases hits.len(),
{
    if hits.len() > 0 {
        lemma_heavy_shoves_times(gb, s, hits.drop_last(), cx, cy, t);
        let p = heavy_shoves(gb, s, hits.drop_last(), cx, cy, t);
        let e = hits.last();
        assert(hits[hits.len() - 1] == e);
        let en = p.0[e];
        if is_alive(en) && en.kind != Kind::Boss {
            crate::movement::lemma_shove_times(gb, p.0, e, sign_spec(en.x - cx), sign_spec(en.y - cy), t);
            lemma_times_kept_trans(
                s,
                p.0,
                shove_ents_s(gb, p.0, e, sign_spec(en.x - cx), sign_spec(en.y - cy), t),
            );
            crate::state::lemma_frame_kept_trans(
                s,
                p.0,
                shove_ents_s(gb, p.0, e, sign_spec(en.x - cx), sign_spec(en.y - cy), t),
            );
        }
    }
}

/// The blast keeps every entity's time, kind and id.
pub proof fn lemma_heavy_times(a: GameState, b: GameState, cx: int, cy: int, t: TierTable)
    ensures
        times_kept(a.entities@, heavy_result(a, b, cx, cy, t).0),
        frame_kept(a.entities@, heavy_result(a, b, cx, cy, t).0),
{
    let cells = cells_in_bounds(a, cx, cy, heavy_offsets());
    lemma_heavy_hits_times(a.entities@, cells, t);
    let h = heavy_hits(a.entities@, cells, t);
    lemma_heavy_shoves_times(b, h.0, h.2, cx, cy, t);
    lemma_times_kept_trans(a.entities@, h.0, heavy_shoves(b, h.0, h.2, cx, cy, t).0);
    crate::state::lemma_frame_kept_trans(a.entities@, h.0, heavy_shoves(b, h.0, h.2, cx, cy, t).0);
}

/// Casting keeps every entity's time, kind and id.
pub proof fn lemma_cast_times(spell: Spell, a: GameState, b: GameState, t: Target, tiers: TierTable, rest: Seq<Event>)
    requires
        a.has_mage(),
        validate_spec(spell, a, t) is Ok,
        cast_post(spell, a, b, t, tiers, rest),
    ensures
        times_kept(a.entities@, b.entities@),
        frame_kept(a.entities@, b.entities@),
{
    let s = a.entities@;
    lemma_first_index(s, mage_pred());
    match spell {
        Spell::Bolt => {
            match ray_hit(a, a.mage_spec().x as int, a.mage_spec().y as int, t.x as int, t.y as int) {
                Some(v) => {
                    crate::damage::lemma_damage_times(s, v, BOLT_DMG, tiers);
                },
                None => {},
            }
        },
        Spell::Push => {
            let e = enemy_at_spec(a, t.x as int, t.y as int).unwrap();
            lemma_first_index(s, occupies(t.x as int, t.y as int));
            crate::movement::lemma_push_times(a, e, tiers);
        },
        Spell::Hook => {
            let e = enemy_at_spec(a, t.x as int, t.y as int).unwrap();
            lemma_first_index(s, occupies(t.x as int, t.y as int));
            crate::movement::lemma_pull_times(a, e, tiers);
        },
        Spell::Fire => {
            lemma_first_index(s, occupies(t.x as int, t.y as int));
            match enemy_at_spec(a, t.x as int, t.y as int) {
                Some(e) => crate::damage::lemma_damage_times(s, e, FIRE_DMG, tiers),
                None => {},
            }
            let s1 = match enemy_at_spec(a, t.x as int, t.y as int) {
                Some(e) => damage_ents(s, e, FIRE_DMG, tiers),
                None => s,
            };
            if a.tile(t.x as int, t.y as int) == Tile::Oil {
                lemma_first_index(s1, mage_pred());
                lemma_times_kept_trans(s, s1, b.entities@);
                crate::state::lemma_frame_kept_trans(s, s1, b.entities@);
            }
        },
        Spell::OilFlask => {},
        Spell::Haste => {},
        Spell::Heavy => {
            lemma_heavy_times(a, b, t.x as int, t.y as int, tiers);
        },
    }
}

} // verus!
