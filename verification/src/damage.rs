//! Damage and death resolution, and the per-step context shared by all effects.
use crate::config;
use crate::events::Event;
use crate::spells::{spell_by_id, spell_code, spell_of_name, lemma_spell_names_distinct, Spell};
use crate::state::{GameState, Kind, Entity, Channel, is_alive, count_alive_enemies, lemma_count_update, is_alive_enemy, lemma_first_index, mage_pred, lemma_first_index_same, same_frame, ents_ok, has_mage_s, mage_index_s, lemma_grids_same};
use vstd::prelude::*;

verus! {

/// Tier (1 or 2) of every spell; spells never picked are tier 1.
#[derive(Clone, Copy, Debug)]
pub struct TierTable {
    t: [u8; 7],
}

impl TierTable {
    /// Tier of spell `s`.
    pub closed spec fn tier_of(&self, s: Spell) -> u8 {
        self.t@[spell_code(s)]
    }

    /// Tier looked up by text id; unknown ids have tier 1.
    pub open spec fn tier_by_name(&self, name: Seq<char>) -> u8 {
        match spell_of_name(name) {
            Some(s) => self.tier_of(s),
            None => 1,
        }
    }

    /// Tier of the spell named `id` (1 when it was never set or is unknown).
    pub fn of(&self, id: &str) -> (r: u8)
        ensures
            r == self.tier_by_name(id@),
    {
        match spell_by_id(id) {
            Some(s) => self.t[s.code()],
            None => 1,
        }
    }

    /// Sets the tier of the spell named `id` (unknown ids change nothing).
    pub fn set(&mut self, id: &str, tier: u8)
        ensures
            forall|s: Spell|
                #[trigger] final(self).tier_of(s) == if spell_of_name(id@) == Some(s) {
                    tier
                } else {
                    old(self).tier_of(s)
                },
    {
        match spell_by_id(id) {
            Some(s) => {
                let c = s.code();
                self.t.set(c, tier);
            },
            None => {},
        }
    }

    /// Forgets the tier of the spell named `id` (it reads as 1 again).
    pub fn remove(&mut self, id: &str)
        ensures
            forall|s: Spell|
                #[trigger] final(self).tier_of(s) == if spell_of_name(id@) == Some(s) {
                    1
                } else {
                    old(self).tier_of(s)
                },
    {
        self.set(id, 1);
    }
}

impl Default for TierTable {
    fn default() -> (r: Self)
        ensures
            forall|s: Spell| #[trigger] r.tier_of(s) == 1,
    {
        TierTable { t: [1u8; 7] }
    }
}

/// State local to one `step` (never part of the persistent game state).
pub struct StepCtx {
    /// Events in order.
    pub events: Vec<Event>,
    /// The mage was hurt during this step (stops auto-walk).
    pub mage_hurt: bool,
    /// Spell tiers of the run, copied in for this step.
    pub tiers: TierTable,
}

impl StepCtx {
    pub fn new() -> (r: Self)
        ensures
            r.events@ == Seq::<Event>::empty(),
            !r.mage_hurt,
            forall|s: Spell| #[trigger] r.tiers.tier_of(s) == 1,
    {
        StepCtx { events: Vec::new(), mage_hurt: false, tiers: TierTable::default() }
    }
}

impl Default for StepCtx {
    fn default() -> (r: Self)
        ensures
            r.events@ == Seq::<Event>::empty(),
            !r.mage_hurt,
            forall|s: Spell| #[trigger] r.tiers.tier_of(s) == 1,
    {
        Self::new()
    }
}


/// Tier tables that give every spell the same tier are the same table.
pub proof fn lemma_tiers_ext(a: TierTable, b: TierTable)
    requires
        forall|s: Spell| #[trigger] a.tier_of(s) == b.tier_of(s),
    ensures
        a == b,
{
    assert(a.tier_of(Spell::Bolt) == b.tier_of(Spell::Bolt));
    assert(a.tier_of(Spell::Push) == b.tier_of(Spell::Push));
    assert(a.tier_of(Spell::Fire) == b.tier_of(Spell::Fire));
    assert(a.tier_of(Spell::Heavy) == b.tier_of(Spell::Heavy));
    assert(a.tier_of(Spell::OilFlask) == b.tier_of(Spell::OilFlask));
    assert(a.tier_of(Spell::Hook) == b.tier_of(Spell::Hook));
    assert(a.tier_of(Spell::Haste) == b.tier_of(Spell::Haste));
    assert(a.t =~= b.t);
}

} // verus!

verus! {

/// Damage actually dealt: an overheated golem takes double.
pub open spec fn dmg_amount(e: Entity, amt: i32) -> int {
    if e.kind == Kind::Boss && e.exhausted {
        2 * amt
    } else {
        amt as int
    }
}

/// Hit points after the damage, never below zero.
pub open spec fn hp_after(e: Entity, amt: i32) -> int {
    if e.hp - dmg_amount(e, amt) <= 0 {
        0
    } else {
        e.hp - dmg_amount(e, amt)
    }
}

/// The entity after being hit: hit points drop, a charging mage is interrupted.
pub open spec fn hit_entity(e: Entity, amt: i32) -> Entity {
    Entity {
        hp: hp_after(e, amt) as i32,
        channel: if e.kind == Kind::Mage {
            match e.channel {
                Some(ch) => Some(Channel { interrupted: true, ..ch }),
                None => None,
            }
        } else {
            e.channel
        },
        ..e
    }
}

/// The hit kills a non-mage entity.
pub open spec fn is_kill(e: Entity, amt: i32) -> bool {
    e.kind != Kind::Mage && e.hp - dmg_amount(e, amt) <= 0
}

/// A kill while hasted with haste at tier 2 extends the haste by one turn.
pub open spec fn kill_bonus(s: Seq<Entity>, idx: int, amt: i32, tiers: TierTable) -> bool {
    is_kill(s[idx], amt) && tiers.tier_of(Spell::Haste) >= 2 && s[mage_index_s(s)].haste_turns > 0
}

/// Entities after `deal_damage`.
pub open spec fn damage_ents(s: Seq<Entity>, idx: int, amt: i32, tiers: TierTable) -> Seq<Entity> {
    let s1 = s.update(idx, hit_entity(s[idx], amt));
    let m = s[mage_index_s(s)];
    if kill_bonus(s, idx, amt, tiers) {
        s1.update(mage_index_s(s), Entity { haste_turns: (m.haste_turns + 1) as u32, ..m })
    } else {
        s1
    }
}

/// Events emitted by `deal_damage`.
pub open spec fn damage_events(s: Seq<Entity>, idx: int, amt: i32, tiers: TierTable) -> Seq<Event> {
    let e = s[idx];
    let interrupted = e.kind == Kind::Mage && e.channel is Some && !e.channel.unwrap().interrupted;
    (if interrupted {
        seq![Event::ChannelInterrupted { id: e.id }]
    } else {
        Seq::empty()
    }) + seq![Event::Damaged { id: e.id, amt: dmg_amount(e, amt) as i32 }] + (if is_kill(e, amt) {
        seq![Event::Died { id: e.id }]
    } else {
        Seq::empty()
    }) + (if kill_bonus(s, idx, amt, tiers) {
        seq![Event::HasteGained { id: s[mage_index_s(s)].id }]
    } else {
        Seq::empty()
    })
}

/// Room in the haste counter for a repeated kill of an already dead enemy.
pub open spec fn damage_budget(s: Seq<Entity>, idx: int) -> bool {
    (s[idx].kind != Kind::Mage && !is_alive(s[idx]) && has_mage_s(s)) ==> s[mage_index_s(s)].haste_turns
        + count_alive_enemies(s) < u32::MAX
}

/// What `deal_damage` needs: a valid target, an amount that can be doubled, a mage for the haste
/// bonus, and room in the haste counter.
pub open spec fn damage_ok(g: GameState, idx: int, amt: i32, tiers: TierTable) -> bool {
    &&& g.wf()
    &&& 0 <= idx < g.entities@.len()
    &&& 0 <= amt
    &&& (g.entities@[idx].kind == Kind::Boss && g.entities@[idx].exhausted ==> amt <= i32::MAX / 2)
    &&& (is_kill(g.entities@[idx], amt) && tiers.tier_of(Spell::Haste) >= 2) ==> g.has_mage()
    &&& damage_budget(g.entities@, idx)
}

/// Damage entity `idx` by `amt` and resolve its death.
///
/// An overheated golem takes double damage; a charging mage is interrupted; hit points
/// stop at zero; killing an enemy while hasted with haste at tier 2 adds one hasted turn.
pub fn deal_damage(g: &mut GameState, idx: usize, amt: i32, ctx: &mut StepCtx)
    requires
        damage_ok(*old(g), idx as int, amt, old(ctx).tiers),
    ensures
        final(g).entities@ == damage_ents(old(g).entities@, idx as int, amt, old(ctx).tiers),
        final(ctx).events@ == old(ctx).events@ + damage_events(old(g).entities@, idx as int, amt, old(ctx).tiers),
        final(ctx).mage_hurt == (old(ctx).mage_hurt || old(g).entities@[idx as int].kind == Kind::Mage),
        final(ctx).tiers == old(ctx).tiers,
        final(g).w == old(g).w,
        final(g).h == old(g).h,
        final(g).tiles == old(g).tiles,
        final(g).fire == old(g).fire,
        final(g).burn_t == old(g).burn_t,
        final(g).room_idx == old(g).room_idx,
        final(g).core == old(g).core,
        final(g).wf(),
        final(g).entities@.len() == old(g).entities@.len(),
        final(g).has_mage() == old(g).has_mage(),
        final(g).mage_index() == old(g).mage_index(),
        forall|i: int|
            0 <= i < old(g).entities@.len() ==> same_frame(
                #[trigger] final(g).entities@[i],
                old(g).entities@[i],
            ) && final(g).entities@[i].hp <= old(g).entities@[i].hp,
{
    proof {
        lemma_damage_facts(*old(g), idx as int, amt, old(ctx).tiers);
        lemma_first_index(old(g).entities@, mage_pred());
    }
    let kind = g.entities[idx].kind;
    let mut dealt = amt;
    if kind == Kind::Boss && g.entities[idx].exhausted {
        dealt = amt * 2;
    }
    if kind.is_mage() {
        let id = g.entities[idx].id;
        if let Some(ch) = &mut g.entities[idx].channel {
            if !ch.interrupted {
                ch.interrupted = true;
                ctx.events.push(Event::ChannelInterrupted { id });
            }
        }
        ctx.mage_hurt = true;
    }
    let id = g.entities[idx].id;
    g.entities[idx].hp = g.entities[idx].hp - dealt;
    ctx.events.push(Event::Damaged { id, amt: dealt });
    if g.entities[idx].hp <= 0 {
        g.entities[idx].hp = 0;
        if kind.is_mage() {
            proof {
                lemma_grids_same(*g, *old(g));
                assert(g.entities@ =~= damage_ents(old(g).entities@, idx as int, amt, old(ctx).tiers));
            }
            return;
        }
        ctx.events.push(Event::Died { id });
        proof {
            lemma_spell_names_distinct();
        }
        if ctx.tiers.of(Spell::Haste.id()) >= 2 {
            proof {
                let e = old(g).entities@[idx as int];
                assert(g.entities@ =~= old(g).entities@.update(idx as int, hit_entity(e, amt)));
                assert forall|i: int| 0 <= i < g.entities@.len() implies #[trigger] mage_pred()(
                    g.entities@[i],
                ) == mage_pred()(old(g).entities@[i]) by {}
                lemma_first_index_same(g.entities@, old(g).entities@, mage_pred());
                lemma_count_update(old(g).entities@, idx as int, hit_entity(e, amt));
            }
            let ghost before = g.entities@;
            let mage = g.mage_mut();
            if mage.haste_turns > 0 {
                mage.haste_turns = mage.haste_turns + 1;
                ctx.events.push(Event::HasteGained { id: mage.id });
            }
            proof {
                let mi = old(g).mage_index();
                assert(mage_index_s(before) == mi);
                if old(g).mage_spec().haste_turns > 0 {
                    assert(g.entities@ =~= before.update(mi, Entity { haste_turns: (old(g).mage_spec().haste_turns + 1) as u32, ..old(g).mage_spec() }));
                } else {
                    assert(g.entities@ =~= before);
                }
            }
        }
    }
    proof {
        lemma_grids_same(*g, *old(g));
        assert(g.entities@ =~= damage_ents(old(g).entities@, idx as int, amt, old(ctx).tiers));
    }
}

/// Damage keeps every entity's time, kind and id.
pub proof fn lemma_damage_times(s: Seq<Entity>, idx: int, amt: i32, tiers: TierTable)
    requires
        0 <= idx < s.len(),
    ensures
        crate::state::times_kept(s, damage_ents(s, idx, amt, tiers)),
        crate::state::frame_kept(s, damage_ents(s, idx, amt, tiers)),
{
    lemma_first_index(s, mage_pred());
}

/// Damage changes the hit points and charge of the target only.
pub proof fn lemma_damage_others(s: Seq<Entity>, idx: int, amt: i32, tiers: TierTable)
    requires
        0 <= idx < s.len(),
    ensures
        damage_ents(s, idx, amt, tiers).len() == s.len(),
        forall|i: int|
            0 <= i < s.len() && i != idx ==> (#[trigger] damage_ents(s, idx, amt, tiers)[i]).hp == s[i].hp
                && damage_ents(s, idx, amt, tiers)[i].channel == s[i].channel,
{
    lemma_first_index(s, mage_pred());
}

proof fn lemma_damage_facts(g: GameState, idx: int, amt: i32, tiers: TierTable)
    requires
        damage_ok(g, idx, amt, tiers),
    ensures
        ({
            let s = damage_ents(g.entities@, idx, amt, tiers);
            &&& ents_ok(s)
            &&& s.len() == g.entities@.len()
            &&& has_mage_s(s) == g.has_mage()
            &&& mage_index_s(s) == g.mage_index()
        }),
{
    let e = g.entities@[idx];
    lemma_first_index(g.entities@, mage_pred());
    let s1 = g.entities@.update(idx, hit_entity(e, amt));
    let s = damage_ents(g.entities@, idx, amt, tiers);
    assert(s.len() == g.entities@.len());
    assert forall|i: int| 0 <= i < s.len() implies #[trigger] mage_pred()(s[i]) == mage_pred()(
        g.entities@[i],
    ) by {}
    lemma_first_index_same(s, g.entities@, mage_pred());
    lemma_count_update(g.entities@, idx, hit_entity(e, amt));
    if g.has_mage() {
        let mi = g.mage_index();
        let m = g.mage_spec();
        if kill_bonus(g.entities@, idx, amt, tiers) {
            assert(mi != idx);
            lemma_count_update(s1, mi, Entity { haste_turns: (m.haste_turns + 1) as u32, ..m });
            assert(s[mi].haste_turns == m.haste_turns + 1);
        } else {
            if mi == idx {
                assert(s[mi].haste_turns == m.haste_turns);
            }
        }
    }
    assert forall|i: int| 0 <= i < s.len() implies crate::state::ent_ok(#[trigger] s[i]) by {
        assert(crate::state::ent_ok(g.entities@[i]));
    }
}

} // verus!
