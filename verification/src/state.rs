//! The battle state: tiles, fire and burn grids, and the entities (kept in id order).
use crate::config;
use vstd::prelude::*;

verus! {

/// Upper bound on hit points that keeps every damage and heal free of overflow.
pub const HP_CAP: i32 = 1_000_000_000;

/// Bound on the number of entities that keeps the haste counter free of overflow.
pub const ENT_CAP: usize = 1_000_000_000;

/// Bound on board sizes and coordinates that keeps neighbour arithmetic free of overflow.
pub const COORD_CAP: i32 = 1_073_741_823;

/// Kind of an entity.
#[derive(Clone, Copy, Debug, PartialEq, Eq, Structural)]
pub enum Kind {
    Mage,
    Imp,
    Eye,
    Boss,
}

impl Kind {
    pub fn is_mage(self) -> (r: bool)
        ensures
            r == (self == Kind::Mage),
    {
        match self {
            Kind::Mage => true,
            _ => false,
        }
    }
}

/// A charging (two-turn) spell of the mage.
#[derive(Clone, Debug)]
pub struct Channel {
    /// Id of the charging spell.
    pub spell: &'static str,
    /// Target cell locked in when charging started.
    pub tx: i32,
    pub ty: i32,
    /// The wind-up survived; the mage now stands on the release turn.
    pub ready: bool,
    /// The mage was hurt while charging.
    pub interrupted: bool,
}

/// One entity (the mage or an enemy).
#[derive(Clone, Debug)]
pub struct Entity {
    pub id: u32,
    pub kind: Kind,
    pub x: i32,
    pub y: i32,
    pub hp: i32,
    pub maxhp: i32,
    /// Speed in half steps (1.0 = 2, 1.5 = 3).
    pub speed_halves: u8,
    /// Time at which this entity acts next, in units of 1/6.
    pub time: i64,
    /// Remaining hasted turns (mage only).
    pub haste_turns: u32,
    /// Remaining stunned turns.
    pub stun: u32,
    pub channel: Option<Channel>,
    /// Remaining auto-walk path of the mage.
    pub path: Option<Vec<(i32, i32)>>,
    /// Golem: the announced slam lands on its next turn.
    pub pending_slam: bool,
    /// Golem: overheated after a slam, takes double damage until its next turn.
    pub exhausted: bool,
    /// Golem: the announced slam cells.
    pub slam: Option<Vec<(i32, i32)>>,
}

pub open spec fn is_alive(e: Entity) -> bool {
    e.hp > 0
}

/// Effective speed: hasted mages run at 1.5, everyone else at their own speed.
pub open spec fn eff_speed_spec(e: Entity) -> u8 {
    if e.kind == Kind::Mage && e.haste_turns > 0 {
        config::SPEED_HALVES_HASTE
    } else {
        e.speed_halves
    }
}

pub open spec fn start_hp(kind: Kind) -> i32 {
    match kind {
        Kind::Mage => config::MAGE_HP,
        Kind::Imp => config::IMP_HP,
        Kind::Eye => config::EYE_HP,
        Kind::Boss => config::BOSS_HP,
    }
}

/// A freshly created entity of the given kind.
pub open spec fn new_entity_spec(id: u32, kind: Kind, x: i32, y: i32, e: Entity) -> bool {
    &&& e.id == id
    &&& e.kind == kind
    &&& e.x == x
    &&& e.y == y
    &&& e.hp == start_hp(kind)
    &&& e.maxhp == start_hp(kind)
    &&& e.speed_halves == config::SPEED_HALVES_BASE
    &&& e.time == 0
    &&& e.haste_turns == 0
    &&& e.stun == 0
    &&& e.channel is None
    &&& e.path is None
    &&& e.pending_slam == (kind == Kind::Boss)
    &&& !e.exhausted
    &&& e.slam is None
}

impl Entity {
    pub fn alive(&self) -> (r: bool)
        ensures
            r == is_alive(*self),
    {
        self.hp > 0
    }

    /// Effective speed in half steps.
    pub fn eff_speed_halves(&self) -> (r: u8)
        ensures
            r == eff_speed_spec(*self),
    {
        if self.kind.is_mage() && self.haste_turns > 0 {
            config::SPEED_HALVES_HASTE
        } else {
            self.speed_halves
        }
    }

    pub fn new(id: u32, kind: Kind, x: i32, y: i32) -> (r: Self)
        ensures
            new_entity_spec(id, kind, x, y, r),
    {
        let hp = match kind {
            Kind::Mage => config::MAGE_HP,
            Kind::Imp => config::IMP_HP,
            Kind::Eye => config::EYE_HP,
            Kind::Boss => config::BOSS_HP,
        };
        let pending = match kind {
            Kind::Boss => true,
            _ => false,
        };
        Entity {
            id,
            kind,
            x,
            y,
            hp,
            maxhp: hp,
            speed_halves: config::SPEED_HALVES_BASE,
            time: 0,
            haste_turns: 0,
            stun: 0,
            channel: None,
            path: None,
            pending_slam: pending,
            exhausted: false,
            slam: None,
        }
    }
}

/// Terrain of one cell.
#[derive(Clone, Copy, Debug, PartialEq, Eq, Structural)]
pub enum Tile {
    Floor,
    Wall,
    Wood,
    WoodBurn,
    Oil,
    Spike,
    Rune,
}

/// The whole battle state of one room.
#[derive(Clone, Debug)]
pub struct GameState {
    pub w: i32,
    pub h: i32,
    pub tiles: Vec<Vec<Tile>>,
    /// Remaining burn time of each fire cell (0 = no fire).
    pub fire: Vec<Vec<i32>>,
    /// Remaining ticks of each burning wooden wall.
    pub burn_t: Vec<Vec<i32>>,
    /// Entities, always kept in id order.
    pub entities: Vec<Entity>,
    pub room_idx: usize,
    /// Core cell of a base raid (reaching it wins); `None` outside base raids.
    pub core: Option<(i32, i32)>,
}

// ─────────────── first index of an entity satisfying a predicate ───────────────

/// Index of the first entity of `s` satisfying `p`.
pub open spec fn first_index(s: Seq<Entity>, p: spec_fn(Entity) -> bool) -> Option<int>
    decreases s.len(),
{
    if s.len() == 0 {
        None
    } else if p(s[0]) {
        Some(0)
    } else {
        match first_index(s.drop_first(), p) {
            Some(i) => Some(i + 1),
            None => None,
        }
    }
}

/// Characterisation of `first_index`.
pub proof fn lemma_first_index(s: Seq<Entity>, p: spec_fn(Entity) -> bool)
    ensures
        match first_index(s, p) {
            Some(i) => 0 <= i < s.len() && p(s[i]) && forall|j: int| 0 <= j < i ==> !p(#[trigger] s[j]),
            None => forall|j: int| 0 <= j < s.len() ==> !p(#[trigger] s[j]),
        },
        forall|i: int|
            0 <= i < s.len() && p(#[trigger] s[i]) && (forall|j: int| 0 <= j < i ==> !p(#[trigger] s[j]))
                ==> first_index(s, p) == Some(i),
        (exists|i: int| 0 <= i < s.len() && p(#[trigger] s[i])) ==> first_index(s, p) is Some,
    decreases s.len(),
{
    if s.len() > 0 {
        lemma_first_index(s.drop_first(), p);
        assert forall|i: int|
            0 <= i < s.len() && p(#[trigger] s[i]) && (forall|j: int| 0 <= j < i ==> !p(#[trigger] s[j]))
            implies first_index(s, p) == Some(i) by {
            if i > 0 {
                assert(!p(s[0]));
                assert(s.drop_first()[i - 1] == s[i]);
                assert forall|j: int| 0 <= j < i - 1 implies !p(#[trigger] s.drop_first()[j]) by {
                    assert(s.drop_first()[j] == s[j + 1]);
                }
            }
        }
        if exists|i: int| 0 <= i < s.len() && p(#[trigger] s[i]) {
            let i = choose|i: int| 0 <= i < s.len() && p(#[trigger] s[i]);
            if !p(s[0]) {
                assert(s.drop_first()[i - 1] == s[i]);
            }
        }
        match first_index(s, p) {
            Some(i) => {
                if i > 0 {
                    assert forall|j: int| 0 <= j < i implies !p(#[trigger] s[j]) by {
                        if j > 0 {
                            assert(s.drop_first()[j - 1] == s[j]);
                        }
                    }
                }
            },
            None => {
                assert forall|j: int| 0 <= j < s.len() implies !p(#[trigger] s[j]) by {
                    if j > 0 {
                        assert(s.drop_first()[j - 1] == s[j]);
                    }
                }
            },
        }
    }
}

/// The first index satisfying `p` is `i` when `i` satisfies it and nothing before does.
pub proof fn lemma_first_index_at(s: Seq<Entity>, p: spec_fn(Entity) -> bool, i: int)
    requires
        0 <= i < s.len(),
        p(s[i]),
        forall|j: int| 0 <= j < i ==> !p(#[trigger] s[j]),
    ensures
        first_index(s, p) == Some(i),
{
    lemma_first_index(s, p);
    match first_index(s, p) {
        Some(k) => {
            if k < i {
                assert(!p(s[k]));
            }
            if k > i {
                assert(!p(s[i]));
            }
        },
        None => {
            assert(!p(s[i]));
        },
    }
}

/// `first_index` only looks at the predicate on each element.
pub proof fn lemma_first_index_same(s: Seq<Entity>, t: Seq<Entity>, p: spec_fn(Entity) -> bool)
    requires
        s.len() == t.len(),
        forall|i: int| 0 <= i < s.len() ==> p(#[trigger] s[i]) == p(t[i]),
    ensures
        first_index(s, p) == first_index(t, p),
{
    lemma_first_index(s, p);
    lemma_first_index(t, p);
    match first_index(s, p) {
        Some(i) => {
            assert(p(t[i]));
            assert forall|j: int| 0 <= j < i implies !p(#[trigger] t[j]) by {
                assert(!p(s[j]));
            }
        },
        None => {
            assert forall|j: int| 0 <= j < t.len() implies !p(#[trigger] t[j]) by {
                assert(!p(s[j]));
            }
        },
    }
}

pub open spec fn mage_pred() -> spec_fn(Entity) -> bool {
    |e: Entity| e.kind == Kind::Mage
}

/// An alive entity standing on `(x, y)`.
pub open spec fn occupies(x: int, y: int) -> spec_fn(Entity) -> bool {
    |e: Entity| e.hp > 0 && e.x == x && e.y == y
}

/// Number of alive non-mage entities.
pub open spec fn count_alive_enemies(s: Seq<Entity>) -> nat
    decreases s.len(),
{
    if s.len() == 0 {
        0
    } else {
        count_alive_enemies(s.drop_last()) + if s.last().hp > 0 && s.last().kind != Kind::Mage {
            1nat
        } else {
            0nat
        }
    }
}

pub open spec fn is_alive_enemy(e: Entity) -> bool {
    e.hp > 0 && e.kind != Kind::Mage
}

pub proof fn lemma_count_bound(s: Seq<Entity>)
    ensures
        count_alive_enemies(s) <= s.len(),
        count_alive_enemies(s) == 0 <==> forall|i: int| 0 <= i < s.len() ==> !is_alive_enemy(#[trigger] s[i]),
    decreases s.len(),
{
    if s.len() > 0 {
        lemma_count_bound(s.drop_last());
        assert forall|i: int| 0 <= i < s.len() - 1 implies #[trigger] s.drop_last()[i] == s[i] by {}
        if count_alive_enemies(s) == 0 {
            assert forall|i: int| 0 <= i < s.len() implies !is_alive_enemy(#[trigger] s[i]) by {
                if i < s.len() - 1 {
                    assert(s.drop_last()[i] == s[i]);
                }
            }
        }
    }
}

/// Replacing one entity by another with the same alive-enemy status keeps the count.
pub proof fn lemma_count_update(s: Seq<Entity>, i: int, e: Entity)
    requires
        0 <= i < s.len(),
    ensures
        is_alive_enemy(s[i]) == is_alive_enemy(e) ==> count_alive_enemies(s.update(i, e)) == count_alive_enemies(s),
        is_alive_enemy(s[i]) && !is_alive_enemy(e) ==> count_alive_enemies(s.update(i, e)) + 1 == count_alive_enemies(s),
        !is_alive_enemy(s[i]) && is_alive_enemy(e) ==> count_alive_enemies(s.update(i, e)) == count_alive_enemies(s) + 1,
    decreases s.len(),
{
    if i == s.len() - 1 {
        assert(s.update(i, e).drop_last() =~= s.drop_last());
    } else {
        lemma_count_update(s.drop_last(), i, e);
        assert(s.update(i, e).drop_last() =~= s.drop_last().update(i, e));
    }
}

/// The number of alive enemies depends only on the alive-enemy status of each slot.
pub proof fn lemma_count_same(s: Seq<Entity>, t: Seq<Entity>)
    requires
        s.len() == t.len(),
        forall|i: int| 0 <= i < s.len() ==> is_alive_enemy(#[trigger] s[i]) == is_alive_enemy(t[i]),
    ensures
        count_alive_enemies(s) == count_alive_enemies(t),
    decreases s.len(),
{
    if s.len() > 0 {
        assert forall|i: int| 0 <= i < s.len() - 1 implies is_alive_enemy(#[trigger] s.drop_last()[i])
            == is_alive_enemy(t.drop_last()[i]) by {
            assert(s.drop_last()[i] == s[i]);
            assert(t.drop_last()[i] == t[i]);
        }
        lemma_count_same(s.drop_last(), t.drop_last());
    }
}

/// Two entities agree on everything but hit points, haste and the charging spell.
pub open spec fn same_frame(a: Entity, b: Entity) -> bool {
    &&& a.id == b.id
    &&& a.kind == b.kind
    &&& a.x == b.x
    &&& a.y == b.y
    &&& a.maxhp == b.maxhp
    &&& a.speed_halves == b.speed_halves
    &&& a.time == b.time
    &&& a.stun == b.stun
    &&& a.path == b.path
    &&& a.pending_slam == b.pending_slam
    &&& a.exhausted == b.exhausted
    &&& a.slam == b.slam
}

/// Same entities in the same slots, at the same times.
pub open spec fn times_kept(s: Seq<Entity>, t: Seq<Entity>) -> bool {
    &&& t.len() == s.len()
    &&& forall|i: int|
        0 <= i < s.len() ==> (#[trigger] t[i]).time == s[i].time && t[i].kind == s[i].kind && t[i].id == s[i].id
}

/// Target cell of a charge, if any.
pub open spec fn chan_target(c: Option<Channel>) -> Option<(i32, i32)> {
    match c {
        Some(ch) => Some((ch.tx, ch.ty)),
        None => None,
    }
}

/// `times_kept`, and every mage keeps its cell, auto-walk path and charge target.
pub open spec fn frame_kept(s: Seq<Entity>, t: Seq<Entity>) -> bool {
    &&& times_kept(s, t)
    &&& forall|i: int|
        0 <= i < s.len() && s[i].kind == Kind::Mage ==> (#[trigger] t[i]).x == s[i].x && t[i].y == s[i].y
            && t[i].path == s[i].path && chan_target(t[i].channel) == chan_target(s[i].channel)
}

pub proof fn lemma_frame_kept_trans(a: Seq<Entity>, b: Seq<Entity>, c: Seq<Entity>)
    requires
        frame_kept(a, b),
        frame_kept(b, c),
    ensures
        frame_kept(a, c),
{
    lemma_times_kept_trans(a, b, c);
    assert forall|i: int| 0 <= i < a.len() && a[i].kind == Kind::Mage implies (#[trigger] c[i]).x == a[i].x && c[i].y
        == a[i].y && c[i].path == a[i].path && chan_target(c[i].channel) == chan_target(a[i].channel) by {
        assert(b[i].kind == Kind::Mage);
    }
}

pub proof fn lemma_times_kept_trans(a: Seq<Entity>, b: Seq<Entity>, c: Seq<Entity>)
    requires
        times_kept(a, b),
        times_kept(b, c),
    ensures
        times_kept(a, c),
{
    assert forall|i: int| 0 <= i < a.len() implies (#[trigger] c[i]).time == a[i].time && c[i].kind == a[i].kind
        && c[i].id == a[i].id by {
        assert(b[i].time == a[i].time);
    }
}

/// `grids_ok` only looks at the board fields.
pub proof fn lemma_grids_same(a: GameState, b: GameState)
    requires
        a.w == b.w,
        a.h == b.h,
        a.tiles@ == b.tiles@,
        a.burn_t@ == b.burn_t@,
        a.fire@ == b.fire@,
    ensures
        a.grids_ok() == b.grids_ok(),
{
    assert(a.w * a.h == b.w * b.h);
    assert(grid_shape(a.tiles@, a.w as int, a.h as int) == grid_shape(b.tiles@, b.w as int, b.h as int));
    assert(grid_shape(a.fire@, a.w as int, a.h as int) == grid_shape(b.fire@, b.w as int, b.h as int));
    assert(grid_shape(a.burn_t@, a.w as int, a.h as int) == grid_shape(b.burn_t@, b.w as int, b.h as int));
    assert forall|x: int, y: int| a.inb(x, y) implies a.tile(x, y) == b.tile(x, y) && a.burn_at(x, y)
        == b.burn_at(x, y) && b.inb(x, y) by {}
    assert forall|x: int, y: int| b.inb(x, y) implies a.inb(x, y) by {}
}

/// A rectangular `w` x `h` grid.
pub open spec fn grid_shape<T>(grid: Seq<Vec<T>>, w: int, h: int) -> bool {
    grid.len() == h && forall|y: int| 0 <= y < h ==> (#[trigger] grid[y])@.len() == w
}

pub open spec fn ent_ok(e: Entity) -> bool {
    &&& 0 <= e.hp <= HP_CAP
    &&& e.maxhp <= HP_CAP
    &&& -COORD_CAP <= e.x <= COORD_CAP
    &&& -COORD_CAP <= e.y <= COORD_CAP
}

pub open spec fn has_mage_s(s: Seq<Entity>) -> bool {
    first_index(s, mage_pred()) is Some
}

/// Index of the mage (the first entity of kind `Mage`) in `s`.
pub open spec fn mage_index_s(s: Seq<Entity>) -> int {
    match first_index(s, mage_pred()) {
        Some(i) => i,
        None => 0,
    }
}

/// Entity invariants: bounded hit points, and room for every future kill bonus in the
/// mage's haste counter.
pub open spec fn ents_ok(s: Seq<Entity>) -> bool {
    &&& s.len() <= ENT_CAP
    &&& forall|i: int| 0 <= i < s.len() ==> ent_ok(#[trigger] s[i])
    &&& has_mage_s(s) ==> s[mage_index_s(s)].haste_turns + count_alive_enemies(s) <= u32::MAX
}

impl GameState {
    /// Cell `(x, y)` lies on the board.
    pub open spec fn inb(&self, x: int, y: int) -> bool {
        0 <= x < self.w && 0 <= y < self.h
    }

    pub open spec fn tile(&self, x: int, y: int) -> Tile {
        self.tiles@[y]@[x]
    }

    pub open spec fn fire_at(&self, x: int, y: int) -> i32 {
        self.fire@[y]@[x]
    }

    pub open spec fn burn_at(&self, x: int, y: int) -> i32 {
        self.burn_t@[y]@[x]
    }

    pub open spec fn has_mage(&self) -> bool {
        has_mage_s(self.entities@)
    }

    /// Index of the mage (the first entity of kind `Mage`).
    pub open spec fn mage_index(&self) -> int {
        mage_index_s(self.entities@)
    }

    pub open spec fn mage_spec(&self) -> Entity {
        self.entities@[self.mage_index()]
    }

    /// Index of the first alive entity standing on `(x, y)`.
    pub open spec fn ent_at(&self, x: int, y: int) -> Option<int> {
        first_index(self.entities@, occupies(x, y))
    }

    pub open spec fn alive_enemy_count(&self) -> nat {
        count_alive_enemies(self.entities@)
    }

    /// Shape of the board and its grids.
    pub open spec fn grids_ok(&self) -> bool {
        &&& 0 <= self.w <= COORD_CAP
        &&& 0 <= self.h <= COORD_CAP
        &&& self.w * self.h <= i32::MAX
        &&& grid_shape(self.tiles@, self.w as int, self.h as int)
        &&& grid_shape(self.fire@, self.w as int, self.h as int)
        &&& grid_shape(self.burn_t@, self.w as int, self.h as int)
        &&& forall|x: int, y: int|
            self.inb(x, y) && #[trigger] self.tile(x, y) == Tile::WoodBurn ==> self.burn_at(x, y) > i32::MIN
    }

    /// Shape and bounds that every operation relies on.
    pub open spec fn wf(&self) -> bool {
        &&& self.grids_ok()
        &&& ents_ok(self.entities@)
    }

    /// Every entity can act `steps` more times without its time overflowing.
    pub open spec fn time_room(&self, steps: int) -> bool {
        forall|i: int| 0 <= i < self.entities@.len() ==> (#[trigger] self.entities@[i]).time <= i64::MAX - 12 * steps
    }

    /// The mage entity. The state must hold a mage.
    pub fn mage(&self) -> (r: &Entity)
        requires
            self.has_mage(),
        ensures
            *r == self.mage_spec(),
    {
        let i = self.mage_idx();
        &self.entities[i]
    }

    /// Index of the mage in `entities`.
    pub fn mage_idx(&self) -> (r: usize)
        requires
            self.has_mage(),
        ensures
            r == self.mage_index(),
            r < self.entities@.len(),
            self.entities@[r as int].kind == Kind::Mage,
    {
        proof {
            lemma_first_index(self.entities@, mage_pred());
        }
        let mut i: usize = 0;
        while i < self.entities.len()
            invariant
                i <= self.entities@.len(),
                self.has_mage(),
                forall|j: int| 0 <= j < i ==> (#[trigger] self.entities@[j]).kind != Kind::Mage,
                first_index(self.entities@, mage_pred()) is Some,
                match first_index(self.entities@, mage_pred()) {
                    Some(k) => 0 <= k < self.entities@.len() && mage_pred()(self.entities@[k]) && forall|
                        j: int,
                    | 0 <= j < k ==> !mage_pred()(#[trigger] self.entities@[j]),
                    None => true,
                },
            decreases self.entities@.len() - i,
        {
            if self.entities[i].kind.is_mage() {
                assert(mage_pred()(self.entities@[i as int]));
                return i;
            }
            i = i + 1;
        }
        assert(false);
        0
    }

    /// The mage entity, mutably.
    pub fn mage_mut(&mut self) -> (r: &mut Entity)
        requires
            old(self).has_mage(),
        ensures
            *r == old(self).mage_spec(),
            final(self).entities@ == old(self).entities@.update(old(self).mage_index(), *final(r)),
            final(self).w == old(self).w,
            final(self).h == old(self).h,
            final(self).tiles == old(self).tiles,
            final(self).fire == old(self).fire,
            final(self).burn_t == old(self).burn_t,
            final(self).room_idx == old(self).room_idx,
            final(self).core == old(self).core,
    {
        let i = self.mage_idx();
        &mut self.entities[i]
    }

    /// Number of alive enemies.
    pub fn alive_enemies(&self) -> (r: usize)
        ensures
            r == self.alive_enemy_count(),
    {
        let mut n: usize = 0;
        let mut i: usize = 0;
        while i < self.entities.len()
            invariant
                i <= self.entities@.len(),
                n == count_alive_enemies(self.entities@.take(i as int)),
                n <= i,
            decreases self.entities@.len() - i,
        {
            proof {
                assert(self.entities@.take(i as int + 1).drop_last() =~= self.entities@.take(i as int));
            }
            if self.entities[i].hp > 0 && !self.entities[i].kind.is_mage() {
                n = n + 1;
            }
            i = i + 1;
        }
        proof {
            assert(self.entities@.take(i as int) =~= self.entities@);
        }
        n
    }
}

} // verus!
