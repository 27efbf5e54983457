//! The run layer: a seeded deterministic generator, the pick-one-of-three offers and
//! their effect on the spell kit, the run state, and room loading.
use crate::config::{POTION_COUNT, ROOMS, ROOM_COUNT, SPELL_CAP};
use crate::damage::TierTable;
use crate::grid::{cells_in_bounds, slam_area, slam_offsets};
use crate::state::{grid_shape, new_entity_spec, Entity, GameState, Kind, Tile, COORD_CAP, ENT_CAP};
use crate::spells::{lemma_spell_names_distinct, max_tier_spec, pickable, pickable_spec, spell_name, spell_of_name, Spell};
use vstd::prelude::*;
use vstd::string::StringSliceAdditionalSpecFns;

verus! {

// ─────────────── deterministic generator ───────────────

pub open spec fn fnv_step(h: u32, b: u8) -> u32 {
    (((h ^ (b as u32)) as nat * 16777619nat) % 0x1_0000_0000nat) as u32
}

/// FNV-1a over bytes.
pub open spec fn fnv_spec(bytes: Seq<u8>) -> u32
    decreases bytes.len(),
{
    if bytes.len() == 0 {
        2166136261u32
    } else {
        fnv_step(fnv_spec(bytes.drop_last()), bytes.last())
    }
}

fn fnv_bytes(b: &[u8]) -> (r: u32)
    ensures
        r == fnv_spec(b@),
{
    let mut h: u32 = 2166136261;
    let mut i: usize = 0;
    while i < b.len()
        invariant
            i <= b@.len(),
            h == fnv_spec(b@.take(i as int)),
        decreases b@.len() - i,
    {
        proof {
            assert(b@.take(i as int + 1).drop_last() =~= b@.take(i as int));
        }
        h = h ^ (b[i] as u32);
        h = h.wrapping_mul(16777619);
        i = i + 1;
    }
    proof {
        assert(b@.take(i as int) =~= b@);
    }
    h
}

/// FNV-1a hash of the bytes of `s`.
pub fn hash32(s: &str) -> (r: u32)
    ensures
        r == fnv_spec(s.spec_bytes()),
{
    fnv_bytes(s.as_bytes())
}

pub open spec fn wadd(a: u32, b: u32) -> u32 {
    ((a as nat + b as nat) % 0x1_0000_0000nat) as u32
}

pub open spec fn wmul(a: u32, b: u32) -> u32 {
    ((a as nat * b as nat) % 0x1_0000_0000nat) as u32
}

/// The step added to the generator state before each draw.
pub const MB_INC: u32 = 0x6D2B79F5;

/// The output drawn from the generator state `a` (already advanced).
pub open spec fn mb_mix(a: u32) -> u32 {
    let t1 = wmul(a ^ (a >> 15u32), a | 1u32);
    let t2 = wadd(t1, wmul(t1 ^ (t1 >> 7u32), t1 | 61u32)) ^ t1;
    t2 ^ (t2 >> 14u32)
}

/// The mulberry32 generator.
pub struct Mulberry32 {
    state: u32,
}

impl Mulberry32 {
    /// The generator's state.
    pub closed spec fn state_of(&self) -> u32 {
        self.state
    }

    pub fn new(seed: u32) -> (r: Self)
        ensures
            r.state_of() == seed,
    {
        Mulberry32 { state: seed }
    }

    /// Advances the state by `MB_INC` (wrapping) and returns the mixed new state.
    pub fn next_u32(&mut self) -> (r: u32)
        ensures
            final(self).state_of() == wadd(old(self).state_of(), MB_INC),
            r == mb_mix(final(self).state_of()),
    {
        self.state = self.state.wrapping_add(MB_INC);
        let a = self.state;
        let t = (a ^ (a >> 15)).wrapping_mul(a | 1);
        let t = t.wrapping_add((t ^ (t >> 7)).wrapping_mul(t | 61)) ^ t;
        t ^ (t >> 14)
    }

    /// A draw scaled into `[0, n)`: `floor(x * n / 2^32)` for the next output `x`.
    pub fn below(&mut self, n: usize) -> (r: usize)
        requires
            n <= u32::MAX,
        ensures
            final(self).state_of() == wadd(old(self).state_of(), MB_INC),
            r == (mb_mix(final(self).state_of()) as nat * n as nat) / 0x1_0000_0000nat,
            n > 0 ==> r < n,
    {
        let x = self.next_u32();
        proof {
            assert((x as int) * (n as int) <= 0xFFFF_FFFF * 0xFFFF_FFFF) by (nonlinear_arith)
                requires
                    x <= 0xFFFF_FFFF,
                    n <= 0xFFFF_FFFF,
            ;
        }
        let p: u64 = (x as u64) * (n as u64);
        proof {
            assert(p >> 32u64 == p / 0x1_0000_0000u64) by (bit_vector);
            if n > 0 {
                assert(p / 0x1_0000_0000 < n) by (nonlinear_arith)
                    requires
                        p == x * n,
                        x < 0x1_0000_0000,
                        n > 0,
                ;
            }
        }
        (p >> 32) as usize
    }
}

/// Decimal digits of `n` (no leading zeros; `0` is one digit).
pub open spec fn dec_spec(n: nat) -> Seq<u8>
    decreases n,
{
    if n < 10 {
        seq![(48 + n) as u8]
    } else {
        dec_spec(n / 10).push((48 + n % 10) as u8)
    }
}

/// Appends the decimal digits of `n` to `out`.
pub(crate) fn push_dec(out: &mut Vec<u8>, n: u64)
    ensures
        final(out)@ == old(out)@ + dec_spec(n as nat),
    decreases n,
{
    if n >= 10 {
        push_dec(out, n / 10);
    }
    out.push(48 + (n % 10) as u8);
    proof {
        if n >= 10 {
            assert(out@ =~= old(out)@ + dec_spec(n as nat));
        } else {
            assert(out@ =~= old(out)@ + dec_spec(n as nat));
        }
    }
}

/// The hashed key of a stream: `seed|tag|idx` in decimal.
pub open spec fn rng_key(seed: u32, tag: Seq<u8>, idx: nat) -> Seq<u8> {
    dec_spec(seed as nat) + seq![124u8] + tag + seq![124u8] + dec_spec(idx)
}

/// A generator for stream `tag` number `idx` of the run: seeded by the hash of
/// `seed|tag|idx`, so it does not depend on any earlier draw.
pub fn rng_for(run_seed: u32, tag: &str, idx: usize) -> (r: Mulberry32)
    ensures
        r.state_of() == fnv_spec(rng_key(run_seed, tag.spec_bytes(), idx as nat)),
{
    let mut key: Vec<u8> = Vec::new();
    push_dec(&mut key, run_seed as u64);
    key.push(124);
    let tb = tag.as_bytes();
    let mut i: usize = 0;
    let ghost k0 = key@;
    while i < tb.len()
        invariant
            i <= tb@.len(),
            key@ == k0 + tb@.take(i as int),
        decreases tb@.len() - i,
    {
        key.push(tb[i]);
        proof {
            assert(tb@.take(i as int + 1) =~= tb@.take(i as int).push(tb@[i as int]));
        }
        i = i + 1;
    }
    proof {
        assert(tb@.take(i as int) =~= tb@);
    }
    key.push(124);
    push_dec(&mut key, idx as u64);
    proof {
        assert(key@ =~= rng_key(run_seed, tag.spec_bytes(), idx as nat));
    }
    Mulberry32::new(fnv_bytes(key.as_slice()))
}

} // verus!

verus! {

// ─────────────── run state and picks ───────────────

/// One entry of the run's operation log.
#[derive(Clone, Copy, Debug, PartialEq, Eq, Structural)]
pub enum Op {
    Pick { room: usize, take: Spell, drop: Option<Spell> },
    Upgrade { room: usize, id: Spell },
}

/// State that lasts across the rooms of a run.
#[derive(Clone, Debug)]
pub struct RunState {
    pub run_seed: u32,
    /// Picked spells (baseline ones excluded), in pick order.
    pub acquired: Vec<Spell>,
    /// Tier of each spell; copied into every battle step.
    pub tiers: TierTable,
    pub potions: u32,
    pub room_idx: usize,
    pub op_log: Vec<Op>,
}

/// The hand of a run is sound: at most `SPELL_CAP` picked spells, none twice, and
/// every spell's tier between 1 and its highest tier.
pub open spec fn hand_ok(run: RunState) -> bool {
    &&& run.acquired@.len() <= SPELL_CAP
    &&& run.acquired@.no_duplicates()
    &&& forall|s: Spell| 1 <= #[trigger] run.tiers.tier_of(s) <= max_tier_spec(s)
}

/// A run as it starts: seed `seed`, nothing acquired, every tier 1, all potions, the
/// first room and an empty log.
pub open spec fn fresh_run(seed: u32, r: RunState) -> bool {
    &&& r.run_seed == seed
    &&& r.acquired@ == Seq::<Spell>::empty()
    &&& forall|s: Spell| #[trigger] r.tiers.tier_of(s) == 1
    &&& r.potions == POTION_COUNT
    &&& r.room_idx == 0
    &&& r.op_log@ == Seq::<Op>::empty()
}

impl RunState {
    /// A fresh run with the given seed.
    pub fn new(run_seed: u32) -> (r: Self)
        ensures
            hand_ok(r),
            fresh_run(run_seed, r),
    {
        RunState {
            run_seed,
            acquired: Vec::new(),
            tiers: TierTable::default(),
            potions: POTION_COUNT,
            room_idx: 0,
            op_log: Vec::new(),
        }
    }
}

/// Whether a pick still needs a spell dropped.
#[derive(Clone, Copy, Debug, PartialEq, Eq, Structural)]
pub enum PickResult {
    /// Applied (upgrade, or a free slot was left).
    Done,
    /// All slots are taken: call `apply_drop(new_id, drop_id)`.
    NeedDrop,
}

fn holds(v: &Vec<Spell>, s: Spell) -> (r: bool)
    ensures
        r == v@.contains(s),
{
    let mut i: usize = 0;
    while i < v.len()
        invariant
            i <= v@.len(),
            forall|j: int| 0 <= j < i ==> v@[j] != s,
        decreases v@.len() - i,
    {
        if v[i] == s {
            return true;
        }
        i = i + 1;
    }
    false
}

/// Tier after one upgrade: one more, capped at the spell's highest tier.
pub open spec fn upgraded(t: u8, s: Spell) -> u8 {
    if t + 1 <= max_tier_spec(s) {
        (t + 1) as u8
    } else {
        max_tier_spec(s)
    }
}

/// `b` is the run `a` after choosing `id` (see `apply_pick`), with result `r`.
pub open spec fn picked(a: RunState, id: Spell, b: RunState, r: PickResult) -> bool {
    &&& hand_ok(a) ==> hand_ok(b)
    &&& b.run_seed == a.run_seed
    &&& b.potions == a.potions
    &&& b.room_idx == a.room_idx
    &&& if a.acquired@.contains(id) {
        &&& r == PickResult::Done
        &&& b.acquired@ == a.acquired@
        &&& forall|s: Spell| #[trigger] b.tiers.tier_of(s) == if s == id {
            upgraded(a.tiers.tier_of(id), id)
        } else {
            a.tiers.tier_of(s)
        }
        &&& b.op_log@ == a.op_log@.push(Op::Upgrade { room: a.room_idx, id })
    } else if a.acquired@.len() < SPELL_CAP {
        &&& r == PickResult::Done
        &&& b.acquired@ == a.acquired@.push(id)
        &&& forall|s: Spell| #[trigger] b.tiers.tier_of(s) == if s == id {
            1
        } else {
            a.tiers.tier_of(s)
        }
        &&& b.op_log@ == a.op_log@.push(Op::Pick { room: a.room_idx, take: id, drop: None })
    } else {
        &&& r == PickResult::NeedDrop
        &&& b.acquired@ == a.acquired@
        &&& b.tiers == a.tiers
        &&& b.op_log@ == a.op_log@
    }
}

/// Applies the choice of `id`: a held spell is upgraded (no slot used), a new spell
/// takes a free slot at tier 1; with every slot taken nothing changes and a drop is
/// needed. Each applied choice is logged.
pub fn apply_pick(run: &mut RunState, id: Spell) -> (r: PickResult)
    ensures
        picked(*old(run), id, *final(run), r),
{
    proof {
        lemma_spell_names_distinct();
    }
    if holds(&run.acquired, id) {
        let t = run.tiers.of(id.id());
        let mt = id.max_tier();
        let nt = if t < mt {
            t + 1
        } else {
            mt
        };
        run.tiers.set(id.id(), nt);
        run.op_log.push(Op::Upgrade { room: run.room_idx, id });
        PickResult::Done
    } else if run.acquired.len() < SPELL_CAP {
        run.acquired.push(id);
        run.tiers.set(id.id(), 1);
        run.op_log.push(Op::Pick { room: run.room_idx, take: id, drop: None });
        PickResult::Done
    } else {
        PickResult::NeedDrop
    }
}

fn position_of(v: &Vec<Spell>, s: Spell) -> (r: Option<usize>)
    ensures
        match r {
            Some(i) => i < v@.len() && v@[i as int] == s && forall|j: int| 0 <= j < i ==> v@[j] != s,
            None => !v@.contains(s),
        },
{
    let mut i: usize = 0;
    while i < v.len()
        invariant
            i <= v@.len(),
            forall|j: int| 0 <= j < i ==> v@[j] != s,
        decreases v@.len() - i,
    {
        if v[i] == s {
            return Some(i);
        }
        i = i + 1;
    }
    None
}

/// Index of the first `s` in `v`.
pub open spec fn first_pos(v: Seq<Spell>, s: Spell) -> int {
    choose|i: int| 0 <= i < v.len() && v[i] == s && forall|j: int| 0 <= j < i ==> v[j] != s
}

/// `b` is the run `a` after taking `new_id` in place of `drop_id` (see `apply_drop`).
pub open spec fn dropped(a: RunState, new_id: Spell, drop_id: Spell, b: RunState) -> bool {
    &&& hand_ok(a) && (new_id == drop_id || !a.acquired@.contains(new_id)) ==> hand_ok(b)
    &&& b.run_seed == a.run_seed
    &&& b.potions == a.potions
    &&& b.room_idx == a.room_idx
    &&& if a.acquired@.contains(drop_id) {
        &&& b.acquired@ == a.acquired@.update(first_pos(a.acquired@, drop_id), new_id)
        &&& forall|s: Spell| #[trigger] b.tiers.tier_of(s) == if s == new_id {
            1
        } else if s == drop_id {
            1
        } else {
            a.tiers.tier_of(s)
        }
        &&& b.op_log@ == a.op_log@.push(
            Op::Pick { room: a.room_idx, take: new_id, drop: Some(drop_id) },
        )
    } else {
        &&& b.acquired@ == a.acquired@
        &&& b.tiers == a.tiers
        &&& b.op_log@ == a.op_log@
    }
}

/// With every slot taken, replaces the held `drop_id` by `new_id` at tier 1 and
/// forgets the dropped spell's tier; nothing happens when `drop_id` is not held.
pub fn apply_drop(run: &mut RunState, new_id: Spell, drop_id: Spell)
    ensures
        dropped(*old(run), new_id, drop_id, *final(run)),
{
    proof {
        lemma_spell_names_distinct();
    }
    match position_of(&run.acquired, drop_id) {
        Some(i) => {
            proof {
                let v = old(run).acquired@;
                let k = first_pos(v, drop_id);
                assert(0 <= i < v.len() && v[i as int] == drop_id && forall|j: int| 0 <= j < i ==> v[j] != drop_id);
                if k != i {
                    if k < i {
                        assert(v[k] != drop_id);
                    } else {
                        assert(v[i as int] != drop_id);
                    }
                }
            }
            run.op_log.push(Op::Pick { room: run.room_idx, take: new_id, drop: Some(drop_id) });
            run.tiers.remove(drop_id.id());
            run.acquired.set(i, new_id);
            run.tiers.set(new_id.id(), 1);
        },
        None => {},
    }
}

} // verus!

verus! {

// ─────────────── offers ───────────────

/// A spell can be offered: not held yet, or held below its highest tier.
pub open spec fn offer_ok(run: RunState, s: Spell) -> bool {
    !run.acquired@.contains(s) || run.tiers.tier_of(s) < max_tier_spec(s)
}

/// The spells of `p` that can be offered, in order.
pub open spec fn offer_filter(run: RunState, p: Seq<Spell>) -> Seq<Spell>
    decreases p.len(),
{
    if p.len() == 0 {
        Seq::empty()
    } else if offer_ok(run, p.last()) {
        offer_filter(run, p.drop_last()).push(p.last())
    } else {
        offer_filter(run, p.drop_last())
    }
}

proof fn lemma_offer_filter_len(run: RunState, p: Seq<Spell>)
    ensures
        offer_filter(run, p).len() <= p.len(),
    decreases p.len(),
{
    if p.len() > 0 {
        lemma_offer_filter_len(run, p.drop_last());
    }
}

/// Fisher–Yates from position `i` down to 1, each swap partner drawn from the
/// generator (state `st` before the draw).
pub open spec fn shuffle(p: Seq<Spell>, st: u32, i: int) -> Seq<Spell>
    decreases i,
{
    if i <= 0 {
        p
    } else {
        let st2 = wadd(st, MB_INC);
        let j = ((mb_mix(st2) as nat * (i + 1) as nat) / 0x1_0000_0000nat) as int;
        shuffle(p.update(i, p[j]).update(j, p[i]), st2, i - 1)
    }
}

/// The tag of the pick stream.
pub open spec fn picks_tag() -> Seq<u8> {
    seq![112u8, 105u8, 99u8, 107u8, 115u8]
}

/// The offers of the current room: the offerable pool in registry order, shuffled by
/// the room's pick stream, at most three of them.
pub open spec fn offers_spec(run: RunState) -> Seq<Spell> {
    let pool = offer_filter(run, pickable_spec());
    let st = fnv_spec(rng_key(run.run_seed, picks_tag(), run.room_idx as nat));
    let p = shuffle(pool, st, pool.len() - 1);
    if p.len() > 3 {
        p.take(3)
    } else {
        p
    }
}

/// The three (at most) offers of the current room.
pub fn gen_offers(run: &RunState) -> (r: Vec<Spell>)
    ensures
        r@ == offers_spec(*run),
{
    let all = pickable();
    let mut pool: Vec<Spell> = Vec::new();
    let mut k: usize = 0;
    while k < all.len()
        invariant
            k <= all@.len(),
            all@ == pickable_spec(),
            pool@ == offer_filter(*run, all@.take(k as int)),
        decreases all@.len() - k,
    {
        let s = all[k];
        proof {
            assert(all@.take(k as int + 1).drop_last() =~= all@.take(k as int));
            lemma_spell_names_distinct();
        }
        if !holds(&run.acquired, s) || run.tiers.of(s.id()) < s.max_tier() {
            pool.push(s);
        }
        k = k + 1;
    }
    proof {
        assert(all@.take(k as int) =~= all@);
    }
    let ghost pool0 = pool@;
    let tag = "picks";
    proof {
        reveal_strlit("picks");
        assert(vstd::string::is_ascii(tag));
        vstd::string::is_ascii_spec_bytes(tag);
        assert(tag.spec_bytes() =~= picks_tag());
        lemma_offer_filter_len(*run, all@);
    }
    let mut rand = rng_for(run.run_seed, tag, run.room_idx);
    let ghost st0 = rand.state_of();
    let n = pool.len();
    let mut i = n;
    while i > 1
        invariant
            i <= n,
            n == pool0.len(),
            pool@.len() == n,
            n <= 5,
            shuffle(pool@, rand.state_of(), i - 1) == shuffle(pool0, st0, n - 1),
        decreases i,
    {
        i = i - 1;
        let j = rand.below(i + 1);
        let a = pool[i];
        let b = pool[j];
        pool.set(i, b);
        pool.set(j, a);
    }
    pool.truncate(3);
    pool
}

} // verus!

verus! {

proof fn lemma_offer_filter(run: RunState, p: Seq<Spell>)
    ensures
        forall|x: Spell| offer_filter(run, p).contains(x) ==> p.contains(x) && offer_ok(run, x),
        p.no_duplicates() ==> offer_filter(run, p).no_duplicates(),
    decreases p.len(),
{
    if p.len() > 0 {
        let q = p.drop_last();
        lemma_offer_filter(run, q);
        let f = offer_filter(run, q);
        assert forall|x: Spell| offer_filter(run, p).contains(x) implies p.contains(x) && offer_ok(run, x) by {
            if f.contains(x) {
                assert(q.contains(x) && offer_ok(run, x));
                let k = choose|k: int| 0 <= k < q.len() && q[k] == x;
                assert(q[k] == p[k]);
                assert(p[k] == x);
            } else {
                assert(x == p.last());
                assert(p[p.len() - 1] == x);
            }
        }
        if p.no_duplicates() {
            assert(q.no_duplicates()) by {
                assert forall|i: int, j: int| 0 <= i < q.len() && 0 <= j < q.len() && i != j implies q[i] != q[j] by {
                    assert(q[i] == p[i] && q[j] == p[j]);
                }
            }
            if offer_ok(run, p.last()) {
                assert(!f.contains(p.last())) by {
                    if f.contains(p.last()) {
                        let k = choose|k: int| 0 <= k < q.len() && q[k] == p.last();
                        assert(p[k] == p[p.len() - 1]);
                    }
                }
                let r = f.push(p.last());
                assert forall|i: int, j: int| 0 <= i < r.len() && 0 <= j < r.len() && i != j implies r[i] != r[j] by {
                    if i == r.len() - 1 {
                        assert(f.contains(r[j]) || j == r.len() - 1);
                    } else if j == r.len() - 1 {
                        assert(f[i] == r[i]);
                    }
                }
            }
        }
    }
}

/// A swap keeps the length, the elements, and distinctness.
proof fn lemma_swap(p: Seq<Spell>, i: int, j: int)
    requires
        0 <= i < p.len(),
        0 <= j < p.len(),
    ensures
        ({
            let q = p.update(i, p[j]).update(j, p[i]);
            &&& q.len() == p.len()
            &&& forall|x: Spell| q.contains(x) <==> p.contains(x)
            &&& p.no_duplicates() ==> q.no_duplicates()
        }),
{
    let q = p.update(i, p[j]).update(j, p[i]);
    assert forall|x: Spell| q.contains(x) <==> p.contains(x) by {
        if q.contains(x) {
            let k = choose|k: int| 0 <= k < q.len() && q[k] == x;
            if k == j {
                assert(p[i] == x);
            } else if k == i {
                assert(p[j] == x);
            } else {
                assert(p[k] == x);
            }
        }
        if p.contains(x) {
            let k = choose|k: int| 0 <= k < p.len() && p[k] == x;
            if k == i {
                assert(q[j] == x);
            } else if k == j {
                assert(q[i] == x);
            } else {
                assert(q[k] == x);
            }
        }
    }
    if p.no_duplicates() {
        assert forall|a: int, b: int| 0 <= a < q.len() && 0 <= b < q.len() && a != b implies q[a] != q[b] by {
            let pa = if a == j {
                i
            } else if a == i {
                j
            } else {
                a
            };
            let pb = if b == j {
                i
            } else if b == i {
                j
            } else {
                b
            };
            assert(q[a] == p[pa] && q[b] == p[pb]);
        }
    }
}

proof fn lemma_shuffle(p: Seq<Spell>, st: u32, i: int)
    requires
        i < p.len(),
    ensures
        shuffle(p, st, i).len() == p.len(),
        forall|x: Spell| shuffle(p, st, i).contains(x) <==> p.contains(x),
        p.no_duplicates() ==> shuffle(p, st, i).no_duplicates(),
    decreases i,
{
    if i > 0 {
        let st2 = wadd(st, MB_INC);
        let x = mb_mix(st2);
        let j = ((x as nat * (i + 1) as nat) / 0x1_0000_0000nat) as int;
        assert(j < i + 1) by (nonlinear_arith)
            requires
                j == (x as nat * (i + 1) as nat) / 0x1_0000_0000nat,
                x < 0x1_0000_0000nat,
                i + 1 > 0,
        ;
        lemma_swap(p, i, j);
        lemma_shuffle(p.update(i, p[j]).update(j, p[i]), st2, i - 1);
    }
}

/// The offers are three distinct spells of the pick pool (all of them when fewer are
/// offerable), each not held yet or held below its highest tier.
pub proof fn law_offers_valid(run: RunState)
    ensures
        offers_spec(run).len() <= 3,
        offers_spec(run).len() == if offer_filter(run, pickable_spec()).len() < 3 {
            offer_filter(run, pickable_spec()).len() as int
        } else {
            3
        },
        offers_spec(run).no_duplicates(),
        forall|k: int|
            0 <= k < offers_spec(run).len() ==> pickable_spec().contains(#[trigger] offers_spec(run)[k]) && offer_ok(
                run,
                offers_spec(run)[k],
            ),
{
    let pool = offer_filter(run, pickable_spec());
    let st = fnv_spec(rng_key(run.run_seed, picks_tag(), run.room_idx as nat));
    crate::spells::law_pickable_is_non_baseline(Spell::Fire);
    lemma_offer_filter(run, pickable_spec());
    lemma_shuffle(pool, st, pool.len() - 1);
    let p = shuffle(pool, st, pool.len() - 1);
    let r = offers_spec(run);
    assert forall|k: int| 0 <= k < r.len() implies pickable_spec().contains(#[trigger] r[k]) && offer_ok(run, r[k]) by {
        assert(p[k] == r[k]);
        assert(p.contains(r[k]));
    }
    assert(r.no_duplicates()) by {
        assert forall|a: int, b: int| 0 <= a < r.len() && 0 <= b < r.len() && a != b implies r[a] != r[b] by {
            assert(p[a] == r[a] && p[b] == r[b]);
        }
    }
}

/// The spells of `p` kept by `pred` are the ones `offer_filter` keeps, when `pred` says
/// "not held, or held below the top tier".
proof fn lemma_offer_filter_filter(run: RunState, p: Seq<Spell>, pred: spec_fn(Spell) -> bool)
    requires
        forall|s: Spell| #[trigger] pred(s) == (!run.acquired@.contains(s) || run.tiers.tier_of(s) < max_tier_spec(s)),
    ensures
        offer_filter(run, p) == p.filter(pred),
    decreases p.len(),
{
    reveal(Seq::filter);
    if p.len() > 0 {
        lemma_offer_filter_filter(run, p.drop_last(), pred);
        assert(pred(p.last()) == offer_ok(run, p.last()));
    }
}

/// The offers of a room are drawn from the pool of pickable spells that the run does not
/// hold or holds below their top tier: as many as the pool has, three at most; each
/// offer lies in the pool; and a pool of three or fewer is offered whole.
pub proof fn law_offer_pool(run: RunState)
    ensures
        offers_spec(run).len() == if pickable_spec().filter(
            |s: Spell| !run.acquired@.contains(s) || run.tiers.tier_of(s) < max_tier_spec(s),
        ).len() < 3 {
            pickable_spec().filter(|s: Spell| !run.acquired@.contains(s) || run.tiers.tier_of(s) < max_tier_spec(s)).len() as int
        } else {
            3
        },
        forall|k: int|
            0 <= k < offers_spec(run).len() ==> pickable_spec().contains(#[trigger] offers_spec(run)[k]) && (
            !run.acquired@.contains(offers_spec(run)[k]) || run.tiers.tier_of(offers_spec(run)[k]) < max_tier_spec(
                offers_spec(run)[k],
            )),
        pickable_spec().filter(|s: Spell| !run.acquired@.contains(s) || run.tiers.tier_of(s) < max_tier_spec(s)).len()
            <= 3 ==> forall|s: Spell|
            pickable_spec().contains(s) && (!run.acquired@.contains(s) || run.tiers.tier_of(s) < max_tier_spec(s))
                ==> #[trigger] offers_spec(run).contains(s),
{
    let pred = |s: Spell| !run.acquired@.contains(s) || run.tiers.tier_of(s) < max_tier_spec(s);
    lemma_offer_filter_filter(run, pickable_spec(), pred);
    law_offers_valid(run);
    let pool = offer_filter(run, pickable_spec());
    let st = fnv_spec(rng_key(run.run_seed, picks_tag(), run.room_idx as nat));
    if pool.len() <= 3 {
        lemma_offer_filter_contains(run, pickable_spec());
        if pool.len() > 0 {
            lemma_shuffle(pool, st, pool.len() - 1);
        }
        assert forall|s: Spell|
            pickable_spec().contains(s) && (!run.acquired@.contains(s) || run.tiers.tier_of(s) < max_tier_spec(s))
                implies #[trigger] offers_spec(run).contains(s) by {
            assert(offer_ok(run, s));
            assert(pool.contains(s));
        }
    }
}

/// Every offerable spell of `p` is kept by `offer_filter`.
proof fn lemma_offer_filter_contains(run: RunState, p: Seq<Spell>)
    ensures
        forall|x: Spell| p.contains(x) && offer_ok(run, x) ==> #[trigger] offer_filter(run, p).contains(x),
    decreases p.len(),
{
    if p.len() > 0 {
        let q = p.drop_last();
        lemma_offer_filter_contains(run, q);
        assert forall|x: Spell| p.contains(x) && offer_ok(run, x) implies #[trigger] offer_filter(run, p).contains(x) by {
            let k = choose|k: int| 0 <= k < p.len() && p[k] == x;
            if k < p.len() - 1 {
                assert(q[k] == x);
                assert(q.contains(x));
                let f = offer_filter(run, q);
                assert(f.contains(x));
                let j = choose|j: int| 0 <= j < f.len() && f[j] == x;
                if offer_ok(run, p.last()) {
                    assert(offer_filter(run, p) == f.push(p.last()));
                    assert(offer_filter(run, p)[j] == x);
                } else {
                    assert(offer_filter(run, p) == f);
                }
            } else {
                let r = offer_filter(run, p);
                assert(r[r.len() - 1] == x);
            }
        }
    }
}

} // verus!

verus! {

/// The characters of `s`.
pub fn chars_of(s: &str) -> (r: Vec<char>)
    ensures
        r@ == s@,
{
    broadcast use vstd::string::axiom_spec_iter;
    let mut out: Vec<char> = Vec::new();
    for c in it: s.chars()
        invariant
            out@ == it.seq().take(it.index() as int),
    {
        out.push(c);
    }
    out
}

} // verus!

verus! {

// ─────────────── room loading ───────────────

/// Terrain of a map character.
pub open spec fn tile_of(c: char) -> Tile {
    if c == '#' {
        Tile::Wall
    } else if c == 'W' {
        Tile::Wood
    } else if c == '~' {
        Tile::Oil
    } else if c == 's' {
        Tile::Spike
    } else if c == 'H' {
        Tile::Rune
    } else {
        Tile::Floor
    }
}

/// Enemy spawned by a map character.
pub open spec fn foe_of(c: char) -> Option<Kind> {
    if c == 'o' {
        Some(Kind::Imp)
    } else if c == 'e' {
        Some(Kind::Eye)
    } else if c == 'B' {
        Some(Kind::Boss)
    } else {
        None
    }
}

fn tile_char(c: char) -> (r: Tile)
    ensures
        r == tile_of(c),
{
    if c == '#' {
        Tile::Wall
    } else if c == 'W' {
        Tile::Wood
    } else if c == '~' {
        Tile::Oil
    } else if c == 's' {
        Tile::Spike
    } else if c == 'H' {
        Tile::Rune
    } else {
        Tile::Floor
    }
}

fn foe_char(c: char) -> (r: Option<Kind>)
    ensures
        r == foe_of(c),
{
    if c == 'o' {
        Some(Kind::Imp)
    } else if c == 'e' {
        Some(Kind::Eye)
    } else if c == 'B' {
        Some(Kind::Boss)
    } else {
        None
    }
}

/// The characters of a row with their coordinates.
pub open spec fn row_scan(r: Seq<char>, y: int) -> Seq<(char, int, int)> {
    Seq::new(r.len(), |x: int| (r[x], x, y))
}

/// Every map character with its coordinates, row by row.
pub open spec fn scan(rows: Seq<Seq<char>>) -> Seq<(char, int, int)>
    decreases rows.len(),
{
    if rows.len() == 0 {
        Seq::empty()
    } else {
        scan(rows.drop_last()) + row_scan(rows.last(), rows.len() - 1)
    }
}

/// Cells holding `@`, in scan order.
pub open spec fn mage_spawns(cells: Seq<(char, int, int)>) -> Seq<(int, int)>
    decreases cells.len(),
{
    if cells.len() == 0 {
        Seq::empty()
    } else {
        let p = mage_spawns(cells.drop_last());
        let c = cells.last();
        if c.0 == '@' {
            p.push((c.1, c.2))
        } else {
            p
        }
    }
}

/// Enemies with their cells, in scan order.
pub open spec fn foe_spawns(cells: Seq<(char, int, int)>) -> Seq<(Kind, int, int)>
    decreases cells.len(),
{
    if cells.len() == 0 {
        Seq::empty()
    } else {
        let p = foe_spawns(cells.drop_last());
        let c = cells.last();
        match foe_of(c.0) {
            Some(k) => p.push((k, c.1, c.2)),
            None => p,
        }
    }
}

/// The first cell holding `C`, in scan order.
pub open spec fn core_of(cells: Seq<(char, int, int)>) -> Option<(int, int)>
    decreases cells.len(),
{
    if cells.len() == 0 {
        None
    } else {
        match core_of(cells.drop_last()) {
            Some(p) => Some(p),
            None => if cells.last().0 == 'C' {
                Some((cells.last().1, cells.last().2))
            } else {
                None
            },
        }
    }
}

/// Position of the first golem among the enemies.
pub open spec fn first_boss(fs: Seq<(Kind, int, int)>) -> Option<int>
    decreases fs.len(),
{
    if fs.len() == 0 {
        None
    } else {
        match first_boss(fs.drop_last()) {
            Some(k) => Some(k),
            None => if fs.last().0 == Kind::Boss {
                Some(fs.len() - 1)
            } else {
                None
            },
        }
    }
}

pub open spec fn rows_of(v: Seq<Vec<char>>) -> Seq<Seq<char>> {
    Seq::new(v.len(), |i: int| v[i]@)
}

/// A rectangular map.
pub open spec fn rect(rows: Seq<Seq<char>>) -> bool {
    forall|y: int| 0 <= y < rows.len() ==> (#[trigger] rows[y]).len() == rows[0].len()
}

/// What a map must give for loading: a first row, bounded sizes, and a mage when a
/// golem is present (its first slam is announced around the mage).
pub open spec fn map_ok(rows: Seq<Seq<char>>) -> bool {
    &&& rows.len() >= 1
    &&& rows.len() <= COORD_CAP
    &&& forall|y: int| 0 <= y < rows.len() ==> (#[trigger] rows[y]).len() <= COORD_CAP
    &&& scan(rows).len() <= ENT_CAP
    &&& first_boss(foe_spawns(scan(rows))) is Some ==> mage_spawns(scan(rows)).len() > 0
}

/// The loaded battle state `g` matches the map: size, terrain, empty fire and burn
/// grids, the mages (id 0) then the enemies (ids from 1) in scan order, the first
/// golem's slam announced around the first mage, and the core cell.
pub open spec fn loaded(rows: Seq<Seq<char>>, room_idx: usize, with_core: bool, g: GameState) -> bool {
    let cells = scan(rows);
    let ms = mage_spawns(cells);
    let fs = foe_spawns(cells);
    let s = g.entities@;
    &&& g.w == rows[0].len()
    &&& g.h == rows.len()
    &&& g.room_idx == room_idx
    &&& g.core == (if with_core {
        match core_of(cells) {
            Some(p) => Some((p.0 as i32, p.1 as i32)),
            None => None,
        }
    } else {
        None
    })
    &&& g.tiles@.len() == rows.len()
    &&& forall|y: int|
        0 <= y < rows.len() ==> (#[trigger] g.tiles@[y])@.len() == rows[y].len() && forall|x: int|
            0 <= x < rows[y].len() ==> #[trigger] g.tiles@[y]@[x] == tile_of(rows[y][x])
    &&& grid_shape(g.fire@, g.w as int, g.h as int)
    &&& grid_shape(g.burn_t@, g.w as int, g.h as int)
    &&& forall|x: int, y: int| 0 <= x < g.w && 0 <= y < g.h ==> #[trigger] g.fire@[y]@[x] == 0 && g.burn_t@[y]@[x] == 0
    &&& s.len() == ms.len() + fs.len()
    &&& forall|k: int| 0 <= k < ms.len() ==> new_entity_spec(0, Kind::Mage, ms[k].0 as i32, ms[k].1 as i32, #[trigger] s[k])
    &&& forall|k: int|
        0 <= k < fs.len() ==> {
            let e = #[trigger] s[ms.len() + k];
            if first_boss(fs) == Some(k) {
                &&& new_entity_spec((k + 1) as u32, fs[k].0, fs[k].1 as i32, fs[k].2 as i32, Entity { slam: None, ..e })
                &&& e.slam matches Some(c) && c@ == cells_in_bounds(g, ms[0].0, ms[0].1, slam_offsets())
            } else {
                new_entity_spec((k + 1) as u32, fs[k].0, fs[k].1 as i32, fs[k].2 as i32, e)
            }
        }
}

} // verus!

verus! {

proof fn lemma_spawn_counts(cells: Seq<(char, int, int)>)
    ensures
        mage_spawns(cells).len() + foe_spawns(cells).len() <= cells.len(),
    decreases cells.len(),
{
    if cells.len() > 0 {
        lemma_spawn_counts(cells.drop_last());
    }
}

proof fn lemma_scan_prefix(rows: Seq<Seq<char>>, y: int)
    requires
        0 <= y <= rows.len(),
    ensures
        scan(rows.take(y)).len() <= scan(rows).len(),
    decreases rows.len() - y,
{
    if y < rows.len() {
        lemma_scan_prefix(rows, y + 1);
        assert(rows.take(y + 1).drop_last() =~= rows.take(y));
    } else {
        assert(rows.take(y) =~= rows);
    }
}

/// Map entities of the cells scanned so far.
spec fn spawns_ok(p: Seq<(char, int, int)>, mages: Seq<Entity>, foes: Seq<Entity>) -> bool {
    let ms = mage_spawns(p);
    let fs = foe_spawns(p);
    &&& mages.len() == ms.len()
    &&& foes.len() == fs.len()
    &&& forall|k: int| 0 <= k < ms.len() ==> new_entity_spec(0, Kind::Mage, ms[k].0 as i32, ms[k].1 as i32, #[trigger] mages[k])
    &&& forall|k: int|
        0 <= k < fs.len() ==> new_entity_spec((k + 1) as u32, fs[k].0, fs[k].1 as i32, fs[k].2 as i32, #[trigger] foes[k])
}

spec fn core_ok(p: Seq<(char, int, int)>, with_core: bool, core: Option<(i32, i32)>) -> bool {
    core == (if with_core {
        match core_of(p) {
            Some(q) => Some((q.0 as i32, q.1 as i32)),
            None => None,
        }
    } else {
        None
    })
}

/// Reads the terrain, the spawns and the core cell of a map.
fn read_map(rows: &Vec<Vec<char>>, with_core: bool) -> (r: (Vec<Vec<Tile>>, Vec<Entity>, Vec<Entity>, Option<(i32, i32)>))
    requires
        map_ok(rows_of(rows@)),
    ensures
        r.0@.len() == rows@.len(),
        forall|y: int|
            0 <= y < rows@.len() ==> (#[trigger] r.0@[y])@.len() == rows@[y]@.len() && forall|x: int|
                0 <= x < rows@[y]@.len() ==> #[trigger] r.0@[y]@[x] == tile_of(rows@[y]@[x]),
        spawns_ok(scan(rows_of(rows@)), r.1@, r.2@),
        core_ok(scan(rows_of(rows@)), with_core, r.3),
{
    let ghost rv = rows_of(rows@);
    let mut tiles: Vec<Vec<Tile>> = Vec::new();
    let mut mages: Vec<Entity> = Vec::new();
    let mut foes: Vec<Entity> = Vec::new();
    let mut core: Option<(i32, i32)> = None;
    let mut next_id: u32 = 1;
    let mut y: usize = 0;
    proof {
        assert(rv.take(0) =~= Seq::<Seq<char>>::empty());
    }
    while y < rows.len()
        invariant
            y <= rows@.len(),
            rv == rows_of(rows@),
            map_ok(rv),
            tiles@.len() == y,
            forall|yy: int|
                0 <= yy < y ==> (#[trigger] tiles@[yy])@.len() == rows@[yy]@.len() && forall|x: int|
                    0 <= x < rows@[yy]@.len() ==> #[trigger] tiles@[yy]@[x] == tile_of(rows@[yy]@[x]),
            spawns_ok(scan(rv.take(y as int)), mages@, foes@),
            core_ok(scan(rv.take(y as int)), with_core, core),
            next_id == foes@.len() + 1,
            scan(rv.take(y as int)).len() <= ENT_CAP,
        decreases rows@.len() - y,
    {
        let row = &rows[y];
        let ghost p0 = scan(rv.take(y as int));
        let ghost rs = row_scan(rv[y as int], y as int);
        let mut trow: Vec<Tile> = Vec::new();
        let mut x: usize = 0;
        proof {
            assert(rv[y as int] == row@);
            assert(p0 + rs.take(0) =~= p0);
            assert(rv.take(y as int + 1).drop_last() =~= rv.take(y as int));
            lemma_scan_prefix(rv, y as int + 1);
            assert(scan(rv.take(y as int + 1)) == p0 + rs);
        }
        while x < row.len()
            invariant
                x <= row@.len(),
                y < rows@.len(),
                row@ == rows@[y as int]@,
                rv == rows_of(rows@),
                map_ok(rv),
                rs == row_scan(rv[y as int], y as int),
                rv[y as int] == row@,
                trow@.len() == x,
                forall|xx: int| 0 <= xx < x ==> #[trigger] trow@[xx] == tile_of(row@[xx]),
                spawns_ok(p0 + rs.take(x as int), mages@, foes@),
                core_ok(p0 + rs.take(x as int), with_core, core),
                next_id == foes@.len() + 1,
                (p0 + rs).len() <= ENT_CAP,
            decreases row@.len() - x,
        {
            let c = row[x];
            let ghost pa = p0 + rs.take(x as int);
            proof {
                assert(p0 + rs.take(x as int + 1) =~= pa.push((c, x as int, y as int)));
                assert(pa.push((c, x as int, y as int)).drop_last() =~= pa);
                assert(rv[y as int].len() <= COORD_CAP);
                assert(y < COORD_CAP);
                lemma_spawn_counts(pa);
            }
            trow.push(tile_char(c));
            if c == '@' {
                mages.push(Entity::new(0, Kind::Mage, x as i32, y as i32));
            } else {
                match foe_char(c) {
                    Some(k) => {
                        foes.push(Entity::new(next_id, k, x as i32, y as i32));
                        next_id = next_id + 1;
                    },
                    None => {},
                }
            }
            if with_core && c == 'C' && core.is_none() {
                core = Some((x as i32, y as i32));
            }
            x = x + 1;
        }
        proof {
            assert(rs.take(x as int) =~= rs);
        }
        tiles.push(trow);
        y = y + 1;
    }
    proof {
        assert(rv.take(y as int) =~= rv);
    }
    (tiles, mages, foes, core)
}

} // verus!

verus! {

/// A `w` x `h` grid of zeros.
fn zero_grid(w: usize, h: usize) -> (r: Vec<Vec<i32>>)
    ensures
        r@.len() == h,
        forall|y: int| 0 <= y < h ==> (#[trigger] r@[y])@.len() == w && forall|x: int| 0 <= x < w ==> r@[y]@[x] == 0,
{
    let mut out: Vec<Vec<i32>> = Vec::new();
    let mut y: usize = 0;
    while y < h
        invariant
            y <= h,
            out@.len() == y,
            forall|yy: int| 0 <= yy < y ==> (#[trigger] out@[yy])@.len() == w && forall|x: int| 0 <= x < w ==> out@[yy]@[x] == 0,
        decreases h - y,
    {
        let mut row: Vec<i32> = Vec::new();
        let mut x: usize = 0;
        while x < w
            invariant
                x <= w,
                row@.len() == x,
                forall|xx: int| 0 <= xx < x ==> row@[xx] == 0,
            decreases w - x,
        {
            row.push(0);
            x = x + 1;
        }
        out.push(row);
        y = y + 1;
    }
    out
}

proof fn lemma_first_boss(fs: Seq<(Kind, int, int)>)
    ensures
        match first_boss(fs) {
            Some(k) => 0 <= k < fs.len() && fs[k].0 == Kind::Boss && forall|j: int| 0 <= j < k ==> (#[trigger] fs[j]).0 != Kind::Boss,
            None => forall|j: int| 0 <= j < fs.len() ==> (#[trigger] fs[j]).0 != Kind::Boss,
        },
    decreases fs.len(),
{
    if fs.len() > 0 {
        lemma_first_boss(fs.drop_last());
        let q = fs.drop_last();
        assert forall|j: int| #![trigger q[j]] #![trigger fs[j]] 0 <= j < q.len() implies q[j] == fs[j] by {}
    }
}

/// Index of the first golem.
fn first_boss_index(ents: &Vec<Entity>) -> (r: Option<usize>)
    ensures
        match r {
            Some(i) => i < ents@.len() && ents@[i as int].kind == Kind::Boss && forall|j: int|
                0 <= j < i ==> (#[trigger] ents@[j]).kind != Kind::Boss,
            None => forall|j: int| 0 <= j < ents@.len() ==> (#[trigger] ents@[j]).kind != Kind::Boss,
        },
{
    let mut i: usize = 0;
    while i < ents.len()
        invariant
            i <= ents@.len(),
            forall|j: int| 0 <= j < i ==> (#[trigger] ents@[j]).kind != Kind::Boss,
        decreases ents@.len() - i,
    {
        if ents[i].kind == Kind::Boss {
            return Some(i);
        }
        i = i + 1;
    }
    None
}

/// Builds the battle state of a map (see `loaded`).
fn build(rows: &Vec<Vec<char>>, room_idx: usize, with_core: bool) -> (g: GameState)
    requires
        map_ok(rows_of(rows@)),
    ensures
        loaded(rows_of(rows@), room_idx, with_core, g),
        rect(rows_of(rows@)) ==> g.wf(),
{
    let ghost rv = rows_of(rows@);
    let (tiles, mut mages, mut foes, core) = read_map(rows, with_core);
    let ghost ms = mages@;
    let ghost fs = foes@;
    let ghost cells = scan(rv);
    let ghost msp = mage_spawns(cells);
    let ghost fsp = foe_spawns(cells);
    let h = rows.len();
    let w = rows[0].len();
    proof {
        assert(rv[0] == rows@[0]@);
        assert(forall|y: int| 0 <= y < rv.len() ==> #[trigger] rv[y] == rows@[y]@);
    }
    let mut entities: Vec<Entity> = Vec::new();
    entities.append(&mut mages);
    entities.append(&mut foes);
    let fire = zero_grid(w, h);
    let burn_t = zero_grid(w, h);
    let mut g = GameState { w: w as i32, h: h as i32, tiles, fire, burn_t, entities, room_idx, core };
    let ghost g0 = g;
    proof {
        assert(g.entities@ =~= ms + fs);
        lemma_first_boss(fsp);
        assert forall|k: int| 0 <= k < ms.len() implies #[trigger] (ms + fs)[k] == ms[k] by {}
        assert forall|k: int| 0 <= k < fs.len() implies #[trigger] (ms + fs)[ms.len() + k] == fs[k] by {}
    }
    match first_boss_index(&g.entities) {
        Some(bi) => {
            proof {
                if bi < ms.len() {
                    assert(ms[bi as int].kind == Kind::Mage);
                }
                let k = bi - ms.len();
                assert(fs[k].kind == fsp[k].0);
                assert forall|j: int| 0 <= j < k implies (#[trigger] fsp[j]).0 != Kind::Boss by {
                    assert(g.entities@[ms.len() + j] == fs[j]);
                }
                match first_boss(fsp) {
                    Some(k2) => {
                        if k2 < k {
                            assert(fsp[k2].0 == Kind::Boss);
                        } else if k2 > k {
                            assert(fsp[k].0 != Kind::Boss);
                        }
                    },
                    None => {
                        assert(fsp[k].0 != Kind::Boss);
                    },
                }
                assert(msp.len() > 0);
                crate::state::lemma_first_index_at(g.entities@, crate::state::mage_pred(), 0);
                lemma_spawn_pos(cells, rv);
                assert(rv[msp[0].1].len() <= COORD_CAP);
            }
            let (mx, my) = {
                let m = g.mage();
                (m.x, m.y)
            };
            let cells_v = slam_area(&g, mx, my);
            g.entities[bi].slam = Some(cells_v);
            proof {
                crate::grid::lemma_cells_same_dims(g0, g, mx as int, my as int, slam_offsets());
                assert forall|k: int| 0 <= k < fsp.len() implies ({
                    let e = #[trigger] g.entities@[ms.len() + k];
                    if first_boss(fsp) == Some(k) {
                        &&& new_entity_spec((k + 1) as u32, fsp[k].0, fsp[k].1 as i32, fsp[k].2 as i32, Entity { slam: None, ..e })
                        &&& e.slam matches Some(c) && c@ == cells_in_bounds(g, msp[0].0, msp[0].1, slam_offsets())
                    } else {
                        new_entity_spec((k + 1) as u32, fsp[k].0, fsp[k].1 as i32, fsp[k].2 as i32, e)
                    }
                }) by {
                    if ms.len() + k != bi {
                        assert(g.entities@[ms.len() + k] == fs[k]);
                    } else {
                        assert(Entity { slam: None, ..g.entities@[ms.len() + k] } == fs[k]);
                    }
                }
                assert forall|k: int| 0 <= k < msp.len() implies new_entity_spec(
                    0,
                    Kind::Mage,
                    msp[k].0 as i32,
                    msp[k].1 as i32,
                    #[trigger] g.entities@[k],
                ) by {
                    assert(g.entities@[k] == ms[k]);
                }
            }
        },
        None => {
            proof {
                assert forall|k: int| 0 <= k < fsp.len() implies (#[trigger] fsp[k]).0 != Kind::Boss by {
                    assert(g.entities@[ms.len() + k] == fs[k]);
                }
                match first_boss(fsp) {
                    Some(k2) => {
                        assert(fsp[k2].0 != Kind::Boss);
                    },
                    None => {},
                }
            }
        },
    }
    proof {
        if rect(rv) {
            lemma_loaded_wf(rv, room_idx, with_core, g);
        }
    }
    g
}

/// Spawn cells lie inside their rows.
proof fn lemma_spawn_pos(cells: Seq<(char, int, int)>, rows: Seq<Seq<char>>)
    requires
        cells == scan(rows),
    ensures
        forall|k: int|
            0 <= k < mage_spawns(cells).len() ==> 0 <= (#[trigger] mage_spawns(cells)[k]).1 < rows.len() && 0
                <= mage_spawns(cells)[k].0 < rows[mage_spawns(cells)[k].1].len(),
{
    lemma_scan_cells(rows);
    lemma_spawns_from(cells);
}

proof fn lemma_scan_cells(rows: Seq<Seq<char>>)
    ensures
        forall|k: int|
            0 <= k < scan(rows).len() ==> 0 <= (#[trigger] scan(rows)[k]).2 < rows.len() && 0 <= scan(rows)[k].1
                < rows[scan(rows)[k].2].len(),
    decreases rows.len(),
{
    if rows.len() > 0 {
        let q = rows.drop_last();
        lemma_scan_cells(q);
        let a = scan(q);
        let b = row_scan(rows.last(), rows.len() - 1);
        assert forall|k: int| 0 <= k < scan(rows).len() implies 0 <= (#[trigger] scan(rows)[k]).2 < rows.len() && 0
            <= scan(rows)[k].1 < rows[scan(rows)[k].2].len() by {
            if k < a.len() {
                assert(scan(rows)[k] == a[k]);
                assert(q[a[k].2] == rows[a[k].2]);
            } else {
                assert(scan(rows)[k] == b[k - a.len()]);
            }
        }
    }
}

/// Every mage spawn is one of the scanned cells.
proof fn lemma_spawns_from(cells: Seq<(char, int, int)>)
    ensures
        forall|k: int|
            0 <= k < mage_spawns(cells).len() ==> exists|i: int|
                0 <= i < cells.len() && cells[i].1 == (#[trigger] mage_spawns(cells)[k]).0 && cells[i].2
                    == mage_spawns(cells)[k].1,
    decreases cells.len(),
{
    if cells.len() > 0 {
        lemma_spawns_from(cells.drop_last());
        let q = cells.drop_last();
        assert forall|k: int| 0 <= k < mage_spawns(cells).len() implies exists|i: int|
            0 <= i < cells.len() && cells[i].1 == (#[trigger] mage_spawns(cells)[k]).0 && cells[i].2
                == mage_spawns(cells)[k].1 by {
            if k < mage_spawns(q).len() {
                let i = choose|i: int|
                    0 <= i < q.len() && q[i].1 == (#[trigger] mage_spawns(q)[k]).0 && q[i].2 == mage_spawns(q)[k].1;
                assert(cells[i] == q[i]);
            } else {
                assert(cells[cells.len() - 1].1 == mage_spawns(cells)[k].0);
            }
        }
    }
}

} // verus!

verus! {

proof fn lemma_scan_len(rows: Seq<Seq<char>>, w: int)
    requires
        forall|y: int| 0 <= y < rows.len() ==> (#[trigger] rows[y]).len() == w,
    ensures
        scan(rows).len() == rows.len() * w,
    decreases rows.len(),
{
    if rows.len() > 0 {
        let q = rows.drop_last();
        assert forall|y: int| 0 <= y < q.len() implies (#[trigger] q[y]).len() == w by {
            assert(q[y] == rows[y]);
        }
        lemma_scan_len(q, w);
        assert(rows.len() * w == q.len() * w + w) by (nonlinear_arith)
            requires
                rows.len() == q.len() + 1,
        ;
    }
}

/// A rectangular map loads into a well-formed state.
proof fn lemma_loaded_wf(rows: Seq<Seq<char>>, room_idx: usize, with_core: bool, g: GameState)
    requires
        map_ok(rows),
        rect(rows),
        loaded(rows, room_idx, with_core, g),
    ensures
        g.wf(),
{
    let cells = scan(rows);
    let w = rows[0].len() as int;
    lemma_scan_len(rows, w);
    lemma_spawn_counts(cells);
    lemma_scan_cells(rows);
    lemma_spawns_from(cells);
    lemma_foes_from(cells);
    let ms = mage_spawns(cells);
    let fs = foe_spawns(cells);
    let s = g.entities@;
    assert(g.grids_ok()) by {
        assert(crate::state::grid_shape(g.tiles@, g.w as int, g.h as int)) by {
            assert forall|y: int| 0 <= y < g.h implies (#[trigger] g.tiles@[y])@.len() == g.w by {
                assert(rows[y].len() == w);
            }
        }
        assert forall|x: int, y: int| g.inb(x, y) && #[trigger] g.tile(x, y) == Tile::WoodBurn implies g.burn_at(x, y)
            > i32::MIN by {
            assert(rows[y].len() == w);
            assert(g.tiles@[y]@[x] == tile_of(rows[y][x]));
        }
    }
    assert forall|i: int| 0 <= i < s.len() implies crate::state::ent_ok(#[trigger] s[i]) by {
        if i < ms.len() {
            let k = i;
            let j = choose|j: int| 0 <= j < cells.len() && cells[j].1 == (#[trigger] ms[k]).0 && cells[j].2 == ms[k].1;
            assert(rows[cells[j].2].len() == w);
        } else {
            let k = i - ms.len();
            assert(s[ms.len() + k] == s[i]);
            let j = choose|j: int| 0 <= j < cells.len() && cells[j].1 == (#[trigger] fs[k]).1 && cells[j].2 == fs[k].2;
            assert(rows[cells[j].2].len() == w);
        }
    }
    assert forall|i: int| 0 <= i < s.len() implies (#[trigger] s[i]).haste_turns == 0 by {
        if i >= ms.len() {
            assert(s[ms.len() + (i - ms.len())] == s[i]);
        }
    }
    crate::state::lemma_count_bound(s);
    crate::state::lemma_first_index(s, crate::state::mage_pred());
    assert(g.w * g.h == cells.len());
    assert(crate::state::ents_ok(s));
}

/// Every enemy spawn is one of the scanned cells.
proof fn lemma_foes_from(cells: Seq<(char, int, int)>)
    ensures
        forall|k: int|
            0 <= k < foe_spawns(cells).len() ==> exists|i: int|
                0 <= i < cells.len() && cells[i].1 == (#[trigger] foe_spawns(cells)[k]).1 && cells[i].2
                    == foe_spawns(cells)[k].2,
    decreases cells.len(),
{
    if cells.len() > 0 {
        lemma_foes_from(cells.drop_last());
        let q = cells.drop_last();
        assert forall|k: int| 0 <= k < foe_spawns(cells).len() implies exists|i: int|
            0 <= i < cells.len() && cells[i].1 == (#[trigger] foe_spawns(cells)[k]).1 && cells[i].2
                == foe_spawns(cells)[k].2 by {
            if k < foe_spawns(q).len() {
                let i = choose|i: int|
                    0 <= i < q.len() && q[i].1 == (#[trigger] foe_spawns(q)[k]).1 && q[i].2 == foe_spawns(q)[k].2;
                assert(cells[i] == q[i]);
            } else {
                assert(cells[cells.len() - 1].1 == foe_spawns(cells)[k].1);
            }
        }
    }
}

} // verus!

verus! {

/// The lines of a text, split at `'\n'` (a text without one is a single line).
pub open spec fn lines(s: Seq<char>) -> Seq<Seq<char>>
    decreases s.len(),
{
    if s.len() == 0 {
        seq![Seq::empty()]
    } else {
        let p = lines(s.drop_last());
        if s.last() == '\n' {
            p.push(Seq::empty())
        } else {
            p.update(p.len() - 1, p.last().push(s.last()))
        }
    }
}

proof fn lemma_lines_len(s: Seq<char>)
    ensures
        lines(s).len() >= 1,
    decreases s.len(),
{
    if s.len() > 0 {
        lemma_lines_len(s.drop_last());
    }
}

/// Splits a text into its lines.
fn split_lines(s: &str) -> (r: Vec<Vec<char>>)
    ensures
        rows_of(r@) == lines(s@),
{
    let cs = chars_of(s);
    let mut rows: Vec<Vec<char>> = Vec::new();
    let mut cur: Vec<char> = Vec::new();
    let mut i: usize = 0;
    proof {
        assert(cs@.take(0) =~= Seq::<char>::empty());
        assert(rows_of(rows@).push(cur@) =~= lines(cs@.take(0)));
    }
    while i < cs.len()
        invariant
            i <= cs@.len(),
            rows_of(rows@).push(cur@) == lines(cs@.take(i as int)),
        decreases cs@.len() - i,
    {
        let c = cs[i];
        proof {
            assert(cs@.take(i as int + 1).drop_last() =~= cs@.take(i as int));
            lemma_lines_len(cs@.take(i as int));
        }
        if c == '\n' {
            let done = cur;
            rows.push(done);
            cur = Vec::new();
            proof {
                assert(rows_of(rows@).push(cur@) =~= lines(cs@.take(i as int + 1)));
            }
        } else {
            let ghost before = rows_of(rows@).push(cur@);
            cur.push(c);
            proof {
                assert(rows_of(rows@).push(cur@) =~= before.update(before.len() - 1, before.last().push(c)));
            }
        }
        i = i + 1;
    }
    proof {
        assert(cs@.take(i as int) =~= cs@);
    }
    let ghost before = rows_of(rows@).push(cur@);
    rows.push(cur);
    proof {
        assert(rows_of(rows@) =~= before);
    }
    rows
}

/// Loads room `room_idx` of `ROOMS` (see `loaded`; rooms have no core cell).
pub fn init_room(room_idx: usize) -> (g: GameState)
    requires
        room_idx < ROOM_COUNT,
    ensures
        loaded(lines(ROOMS@[room_idx as int]@), room_idx, false, g),
        g.wf(),
        crate::turn_ok(g),
        crate::mage_next(g),
        forall|i: int| 0 <= i < g.entities@.len() ==> (#[trigger] g.entities@[i]).time == 0,
{
    proof {
        law_rooms_playable();
        assert(playable(lines(ROOMS@[room_idx as int]@)));
    }
    let text: &str = ROOMS[room_idx];
    let rows = split_lines(text);
    let g = build(&rows, room_idx, false);
    proof {
        lemma_loaded_ready(lines(ROOMS@[room_idx as int]@), room_idx, false, g);
    }
    g
}

/// The characters of each text.
pub open spec fn strs_of(v: Seq<&str>) -> Seq<Seq<char>> {
    Seq::new(v.len(), |i: int| v[i]@)
}

/// Loads a base map given row by row; `C` marks the core cell (see `loaded`).
pub fn init_base(rows: &[&str]) -> (g: GameState)
    requires
        map_ok(strs_of(rows@)),
    ensures
        loaded(strs_of(rows@), 0, true, g),
        rect(strs_of(rows@)) ==> g.wf(),
        playable(strs_of(rows@)) ==> crate::turn_ok(g) && crate::mage_next(g) && forall|i: int|
            0 <= i < g.entities@.len() ==> (#[trigger] g.entities@[i]).time == 0,
{
    let v = rows_chars(rows);
    let g = build(&v, 0, true);
    proof {
        if playable(strs_of(rows@)) {
            lemma_loaded_ready(strs_of(rows@), 0, true, g);
        }
    }
    g
}

} // verus!

verus! {

/// The map holds the character `c`.
pub open spec fn has_char(rows: Seq<Seq<char>>, c: char) -> bool {
    exists|y: int, x: int| 0 <= y < rows.len() && 0 <= x < rows[y].len() && #[trigger] rows[y][x] == c
}

/// Number of characters of the map.
pub open spec fn char_count(rows: Seq<Seq<char>>) -> int
    decreases rows.len(),
{
    if rows.len() == 0 {
        0
    } else {
        char_count(rows.drop_last()) + rows.last().len()
    }
}

/// A map that loads into a playable battle: loadable (see `map_ok`), rectangular, and
/// with a mage.
pub open spec fn playable(rows: Seq<Seq<char>>) -> bool {
    map_ok(rows) && rect(rows) && has_char(rows, '@')
}

/// The cells of the scan lie on the map and carry its characters; every character of
/// the map is scanned; the scan has one cell per character.
proof fn lemma_scan_facts(rows: Seq<Seq<char>>)
    ensures
        scan(rows).len() == char_count(rows),
        forall|k: int|
            0 <= k < scan(rows).len() ==> {
                let c = #[trigger] scan(rows)[k];
                0 <= c.2 < rows.len() && 0 <= c.1 < rows[c.2].len() && c.0 == rows[c.2][c.1]
            },
    decreases rows.len(),
{
    if rows.len() > 0 {
        let p = rows.drop_last();
        lemma_scan_facts(p);
        let a = scan(p);
        let b = row_scan(rows.last(), rows.len() - 1);
        assert(scan(rows) == a + b);
        assert forall|k: int| 0 <= k < scan(rows).len() implies {
            let c = #[trigger] scan(rows)[k];
            0 <= c.2 < rows.len() && 0 <= c.1 < rows[c.2].len() && c.0 == rows[c.2][c.1]
        } by {
            if k < a.len() {
                assert(scan(rows)[k] == a[k]);
                assert(rows[a[k].2] == p[a[k].2]);
            } else {
                assert(scan(rows)[k] == b[k - a.len()]);
            }
        }
    }
}

/// The character on `(x, y)` is scanned.
proof fn lemma_scan_covers(rows: Seq<Seq<char>>, y: int, x: int)
    requires
        0 <= y < rows.len(),
        0 <= x < rows[y].len(),
    ensures
        exists|k: int| 0 <= k < scan(rows).len() && #[trigger] scan(rows)[k] == (rows[y][x], x, y),
    decreases rows.len(),
{
    let p = rows.drop_last();
    let a = scan(p);
    let b = row_scan(rows.last(), rows.len() - 1);
    assert(scan(rows) == a + b);
    if y < rows.len() - 1 {
        lemma_scan_covers(p, y, x);
        assert(rows[y] == p[y]);
        let k = choose|k: int| 0 <= k < a.len() && #[trigger] a[k] == (p[y][x], x, y);
        assert(scan(rows)[k] == a[k]);
    } else {
        assert(scan(rows)[a.len() + x] == b[x]);
    }
}

/// A mage spawns exactly when some cell holds `@`, and the first spawn is such a cell.
proof fn lemma_mage_spawns(cells: Seq<(char, int, int)>)
    ensures
        mage_spawns(cells).len() > 0 <==> exists|k: int| 0 <= k < cells.len() && (#[trigger] cells[k]).0 == '@',
        mage_spawns(cells).len() > 0 ==> exists|k: int|
            0 <= k < cells.len() && (#[trigger] cells[k]).0 == '@' && cells[k].1 == mage_spawns(cells)[0].0
                && cells[k].2 == mage_spawns(cells)[0].1,
    decreases cells.len(),
{
    if cells.len() > 0 {
        let p = cells.drop_last();
        lemma_mage_spawns(p);
        if exists|k: int| 0 <= k < p.len() && (#[trigger] p[k]).0 == '@' {
            let k = choose|k: int| 0 <= k < p.len() && (#[trigger] p[k]).0 == '@';
            assert(cells[k] == p[k]);
        }
        if mage_spawns(p).len() > 0 {
            let k = choose|k: int|
                0 <= k < p.len() && (#[trigger] p[k]).0 == '@' && p[k].1 == mage_spawns(p)[0].0 && p[k].2 == mage_spawns(
                    p,
                )[0].1;
            assert(cells[k] == p[k]);
        } else {
            assert forall|k: int| 0 <= k < cells.len() - 1 implies (#[trigger] cells[k]).0 != '@' by {
                assert(cells[k] == p[k]);
            }
            assert(cells[cells.len() - 1] == cells.last());
        }
    }
}

/// A golem is among the enemies exactly when some cell holds `B`.
proof fn lemma_boss_spawns(cells: Seq<(char, int, int)>)
    ensures
        first_boss(foe_spawns(cells)) is Some <==> exists|k: int|
            0 <= k < cells.len() && (#[trigger] cells[k]).0 == 'B',
    decreases cells.len(),
{
    if cells.len() > 0 {
        let p = cells.drop_last();
        lemma_boss_spawns(p);
        let fp = foe_spawns(p);
        let f = foe_spawns(cells);
        match foe_of(cells.last().0) {
            Some(k) => {
                assert(f.drop_last() == fp);
            },
            None => {},
        }
        if exists|k: int| 0 <= k < p.len() && (#[trigger] p[k]).0 == 'B' {
            let k = choose|k: int| 0 <= k < p.len() && (#[trigger] p[k]).0 == 'B';
            assert(cells[k] == p[k]);
        } else {
            assert forall|k: int| 0 <= k < cells.len() - 1 implies (#[trigger] cells[k]).0 != 'B' by {
                assert(cells[k] == p[k]);
            }
            assert(cells[cells.len() - 1] == cells.last());
        }
    }
}

proof fn lemma_has_char_scan(rows: Seq<Seq<char>>, c: char)
    ensures
        has_char(rows, c) <==> exists|k: int| 0 <= k < scan(rows).len() && (#[trigger] scan(rows)[k]).0 == c,
{
    lemma_scan_facts(rows);
    if has_char(rows, c) {
        let (y, x) = choose|y: int, x: int| 0 <= y < rows.len() && 0 <= x < rows[y].len() && #[trigger] rows[y][x] == c;
        lemma_scan_covers(rows, y, x);
        let k = choose|k: int| 0 <= k < scan(rows).len() && #[trigger] scan(rows)[k] == (rows[y][x], x, y);
        assert(scan(rows)[k].0 == c);
    }
    if exists|k: int| 0 <= k < scan(rows).len() && (#[trigger] scan(rows)[k]).0 == c {
        let k = choose|k: int| 0 <= k < scan(rows).len() && (#[trigger] scan(rows)[k]).0 == c;
        let cell = scan(rows)[k];
        assert(rows[cell.2][cell.1] == c);
    }
}

/// `map_ok` in terms of the map's characters.
proof fn lemma_map_ok_chars(rows: Seq<Seq<char>>)
    ensures
        map_ok(rows) <==> {
            &&& rows.len() >= 1
            &&& rows.len() <= COORD_CAP
            &&& forall|y: int| 0 <= y < rows.len() ==> (#[trigger] rows[y]).len() <= COORD_CAP
            &&& char_count(rows) <= ENT_CAP
            &&& has_char(rows, 'B') ==> has_char(rows, '@')
        },
{
    lemma_scan_facts(rows);
    lemma_has_char_scan(rows, 'B');
    lemma_has_char_scan(rows, '@');
    lemma_boss_spawns(scan(rows));
    lemma_mage_spawns(scan(rows));
}

/// Whether the map (row by row) is `playable`.
fn map_playable(rows: &Vec<Vec<char>>) -> (r: bool)
    ensures
        r == playable(rows_of(rows@)),
{
    let ghost rs = rows_of(rows@);
    proof {
        lemma_map_ok_chars(rs);
    }
    if rows.len() == 0 || rows.len() > COORD_CAP as usize {
        return false;
    }
    let w = rows[0].len();
    let mut total: usize = 0;
    let mut has_b = false;
    let mut has_m = false;
    let mut is_rect = true;
    let mut y: usize = 0;
    while y < rows.len()
        invariant
            rs == rows_of(rows@),
            1 <= rows@.len() <= COORD_CAP,
            y <= rows@.len(),
            w == rs[0].len(),
            forall|k: int| 0 <= k < y ==> (#[trigger] rs[k]).len() <= COORD_CAP,
            total == char_count(rs.take(y as int)),
            total <= ENT_CAP,
            has_b == has_char(rs.take(y as int), 'B'),
            has_m == has_char(rs.take(y as int), '@'),
            is_rect == forall|k: int| 0 <= k < y ==> (#[trigger] rs[k]).len() == w,
        decreases rows@.len() - y,
    {
        let row = &rows[y];
        proof {
            assert(rs[y as int] == row@);
            assert(rs.take(y as int + 1).drop_last() == rs.take(y as int));
        }
        if row.len() > COORD_CAP as usize {
            return false;
        }
        if row.len() != w {
            is_rect = false;
        }
        if total + row.len() > ENT_CAP {
            proof {
                lemma_char_count_grows(rs, y as int + 1);
                assert(rs.take(y as int + 1).last() == rs[y as int]);
                assert(rs.take(y as int + 1).drop_last() == rs.take(y as int));
                assert(char_count(rs.take(y as int + 1)) == total + row@.len());
                assert(char_count(rs) > ENT_CAP);
                lemma_map_ok_chars(rs);
            }
            return false;
        }
        total = total + row.len();
        let ghost hb0 = has_b;
        let ghost hm0 = has_m;
        let mut x: usize = 0;
        while x < row.len()
            invariant
                rs == rows_of(rows@),
                y < rs.len(),
                rs[y as int] == row@,
                x <= row@.len(),
                has_b == (hb0 || exists|j: int| 0 <= j < x && row@[j] == 'B'),
                has_m == (hm0 || exists|j: int| 0 <= j < x && row@[j] == '@'),
            decreases row@.len() - x,
        {
            if row[x] == 'B' {
                has_b = true;
            }
            if row[x] == '@' {
                has_m = true;
            }
            x = x + 1;
        }
        proof {
            lemma_has_char_push(rs, y as int, 'B');
            lemma_has_char_push(rs, y as int, '@');
        }
        y = y + 1;
    }
    proof {
        assert(rs.take(y as int) == rs);
    }
    is_rect && has_m
}

proof fn lemma_char_count_grows(rs: Seq<Seq<char>>, y: int)
    requires
        0 <= y <= rs.len(),
    ensures
        char_count(rs.take(y)) <= char_count(rs),
    decreases rs.len() - y,
{
    if y < rs.len() {
        lemma_char_count_grows(rs, y + 1);
        assert(rs.take(y + 1).drop_last() == rs.take(y));
    } else {
        assert(rs.take(y) == rs);
    }
}

proof fn lemma_has_char_push(rs: Seq<Seq<char>>, y: int, c: char)
    requires
        0 <= y < rs.len(),
    ensures
        has_char(rs.take(y + 1), c) == (has_char(rs.take(y), c) || exists|j: int| 0 <= j < rs[y].len() && rs[y][j] == c),
{
    let a = rs.take(y);
    let b = rs.take(y + 1);
    if has_char(b, c) {
        let (yy, xx) = choose|yy: int, xx: int| 0 <= yy < b.len() && 0 <= xx < b[yy].len() && #[trigger] b[yy][xx] == c;
        if yy < y {
            assert(a[yy][xx] == c);
        } else {
            assert(rs[y][xx] == c);
        }
    }
    if has_char(a, c) {
        let (yy, xx) = choose|yy: int, xx: int| 0 <= yy < a.len() && 0 <= xx < a[yy].len() && #[trigger] a[yy][xx] == c;
        assert(b[yy][xx] == c);
    }
    if exists|j: int| 0 <= j < rs[y].len() && rs[y][j] == c {
        let j = choose|j: int| 0 <= j < rs[y].len() && rs[y][j] == c;
        assert(b[y][j] == c);
    }
}

/// A playable map loads into a state ready for its first turn, with every clock at zero.
proof fn lemma_loaded_ready(rows: Seq<Seq<char>>, room_idx: usize, with_core: bool, g: GameState)
    requires
        loaded(rows, room_idx, with_core, g),
        playable(rows),
        g.wf(),
    ensures
        crate::turn_ok(g),
        crate::mage_next(g),
        forall|i: int| 0 <= i < g.entities@.len() ==> (#[trigger] g.entities@[i]).time == 0,
{
    let cells = scan(rows);
    let ms = mage_spawns(cells);
    let fs = foe_spawns(cells);
    let s = g.entities@;
    lemma_scan_facts(rows);
    lemma_has_char_scan(rows, '@');
    lemma_mage_spawns(cells);
    let k = choose|k: int|
        0 <= k < cells.len() && (#[trigger] cells[k]).0 == '@' && cells[k].1 == ms[0].0 && cells[k].2 == ms[0].1;
    assert(new_entity_spec(0, Kind::Mage, ms[0].0 as i32, ms[0].1 as i32, s[0]));
    crate::state::lemma_first_index_at(s, crate::state::mage_pred(), 0);
    assert(g.mage_index() == 0);
    assert(rows[cells[k].2].len() == rows[0].len());
    assert forall|i: int| 0 <= i < s.len() implies (#[trigger] s[i]).time == 0 by {
        if i < ms.len() {
            assert(new_entity_spec(0, Kind::Mage, ms[i].0 as i32, ms[i].1 as i32, s[i]));
        } else {
            let j = i - ms.len();
            assert(s[ms.len() + j] == s[i]);
        }
    }
}

/// Turns a list of texts into rows of characters.
fn rows_chars(rows: &[&str]) -> (v: Vec<Vec<char>>)
    ensures
        rows_of(v@) == strs_of(rows@),
{
    let mut v: Vec<Vec<char>> = Vec::new();
    let mut i: usize = 0;
    while i < rows.len()
        invariant
            i <= rows@.len(),
            rows_of(v@) == strs_of(rows@.take(i as int)),
        decreases rows@.len() - i,
    {
        let r = chars_of(rows[i]);
        let ghost vb = v@;
        proof {
            assert(rows_of(vb).len() == vb.len());
            assert(strs_of(rows@.take(i as int)).len() == i);
            assert(vb.len() == i);
            assert forall|k: int| 0 <= k < i implies #[trigger] vb[k]@ == rows@[k]@ by {
                assert(rows_of(vb)[k] == vb[k]@);
                assert(strs_of(rows@.take(i as int))[k] == rows@.take(i as int)[k]@);
                assert(rows@.take(i as int)[k] == rows@[k]);
                assert(rows_of(vb)[k] == strs_of(rows@.take(i as int))[k]);
            }
        }
        v.push(r);
        proof {
            assert(rows_of(v@) =~= strs_of(rows@.take(i as int + 1)));
        }
        i = i + 1;
    }
    proof {
        assert(rows@.take(i as int) =~= rows@);
    }
    v
}

/// Whether room `room_idx` exists and its map is `playable`.
pub fn room_playable(room_idx: usize) -> (r: bool)
    ensures
        r == (room_idx < ROOM_COUNT && playable(lines(ROOMS@[room_idx as int]@))),
{
    if room_idx >= ROOM_COUNT {
        return false;
    }
    let rows = split_lines(ROOMS[room_idx]);
    map_playable(&rows)
}

/// Whether a base map given row by row is `playable`.
pub fn base_playable(rows: &[&str]) -> (r: bool)
    ensures
        r == playable(strs_of(rows@)),
{
    let v = rows_chars(rows);
    map_playable(&v)
}


/// Rows joined by line breaks: the text that `lines` splits back into them.
pub open spec fn nl_join(rows: Seq<Seq<char>>) -> Seq<char>
    decreases rows.len(),
{
    if rows.len() == 0 {
        Seq::empty()
    } else if rows.len() == 1 {
        rows[0]
    } else {
        nl_join(rows.drop_last()) + seq!['\n'] + rows.last()
    }
}

proof fn lemma_lines_nonempty(s: Seq<char>)
    ensures
        lines(s).len() >= 1,
    decreases s.len(),
{
    if s.len() > 0 {
        lemma_lines_nonempty(s.drop_last());
    }
}

/// A text without line breaks is one line.
proof fn lemma_lines_flat(s: Seq<char>)
    requires
        forall|i: int| 0 <= i < s.len() ==> s[i] != '\n',
    ensures
        lines(s) == seq![s],
    decreases s.len(),
{
    if s.len() > 0 {
        let p = s.drop_last();
        lemma_lines_flat(p);
        assert(s.last() != '\n');
        assert(lines(s) =~= seq![p.push(s.last())]);
        assert(p.push(s.last()) =~= s);
    } else {
        assert(s =~= Seq::<char>::empty());
    }
}

/// The lines after a line break are the lines of the rest.
proof fn lemma_lines_after(a: Seq<char>, b: Seq<char>)
    ensures
        lines(a + seq!['\n'] + b) == lines(a) + lines(b),
    decreases b.len(),
{
    let s = a + seq!['\n'] + b;
    if b.len() == 0 {
        assert(s.drop_last() =~= a);
        assert(lines(b) =~= seq![Seq::<char>::empty()]);
        assert(lines(s) =~= lines(a) + lines(b));
    } else {
        let b2 = b.drop_last();
        lemma_lines_after(a, b2);
        lemma_lines_nonempty(b2);
        assert(s.drop_last() =~= a + seq!['\n'] + b2);
        assert(s.last() == b.last());
        let p = lines(a) + lines(b2);
        if b.last() == '\n' {
            assert(lines(s) =~= lines(a) + lines(b));
        } else {
            let q = lines(b2);
            assert(p.update(p.len() - 1, p.last().push(b.last())) =~= lines(a) + q.update(q.len() - 1, q.last().push(
                b.last(),
            )));
            assert(lines(s) =~= lines(a) + lines(b));
        }
    }
}

/// Rows without line breaks, joined by line breaks, split back into the same rows.
proof fn lemma_lines_join(rows: Seq<Seq<char>>)
    requires
        rows.len() >= 1,
        forall|y: int, x: int| 0 <= y < rows.len() && 0 <= x < rows[y].len() ==> #[trigger] rows[y][x] != '\n',
    ensures
        lines(nl_join(rows)) == rows,
    decreases rows.len(),
{
    if rows.len() == 1 {
        assert forall|x: int| 0 <= x < rows[0].len() implies rows[0][x] != '\n' by {
            assert(rows[0][x] != '\n');
        }
        lemma_lines_flat(rows[0]);
        assert(seq![rows[0]] =~= rows);
    } else {
        let p = rows.drop_last();
        assert forall|y: int, x: int| 0 <= y < p.len() && 0 <= x < p[y].len() implies #[trigger] p[y][x] != '\n' by {
            assert(p[y] == rows[y]);
            assert(rows[y][x] != '\n');
        }
        lemma_lines_join(p);
        let l = rows.last();
        assert forall|x: int| 0 <= x < l.len() implies l[x] != '\n' by {
            assert(rows[rows.len() - 1][x] != '\n');
        }
        lemma_lines_flat(l);
        lemma_lines_after(nl_join(p), l);
        assert(p + seq![l] =~= rows);
    }
}

/// Where a map character is scanned.
proof fn lemma_scan_at(rows: Seq<Seq<char>>, y: int, x: int) -> (k: int)
    requires
        0 <= y < rows.len(),
        0 <= x < rows[y].len(),
    ensures
        0 <= k < scan(rows).len(),
        scan(rows)[k].0 == rows[y][x],
    decreases rows.len(),
{
    let p = rows.drop_last();
    let a = scan(p);
    let b = row_scan(rows.last(), rows.len() - 1);
    assert(scan(rows) == a + b);
    if y == rows.len() - 1 {
        let k = a.len() + x;
        assert(scan(rows)[k] == b[x]);
        k
    } else {
        let k = lemma_scan_at(p, y, x);
        assert(scan(rows)[k] == a[k]);
        assert(p[y] == rows[y]);
        k
    }
}

proof fn lemma_mage_found(cells: Seq<(char, int, int)>, k: int)
    requires
        0 <= k < cells.len(),
        cells[k].0 == '@',
    ensures
        mage_spawns(cells).len() > 0,
    decreases cells.len(),
{
    if k < cells.len() - 1 {
        assert(cells.drop_last()[k] == cells[k]);
        lemma_mage_found(cells.drop_last(), k);
    }
}

proof fn lemma_char_count_bound(rows: Seq<Seq<char>>)
    requires
        forall|y: int| 0 <= y < rows.len() ==> (#[trigger] rows[y]).len() <= 100,
    ensures
        char_count(rows) <= 100 * rows.len(),
    decreases rows.len(),
{
    if rows.len() > 0 {
        let p = rows.drop_last();
        assert forall|y: int| 0 <= y < p.len() implies (#[trigger] p[y]).len() <= 100 by {
            assert(p[y] == rows[y]);
        }
        lemma_char_count_bound(p);
    }
}

/// A small rectangular map with a mage, written as rows joined by line breaks, loads
/// into a playable battle.
proof fn lemma_room_text(text: Seq<char>, rows: Seq<Seq<char>>, my: int, mx: int)
    requires
        text == nl_join(rows),
        1 <= rows.len() <= 100,
        forall|y: int| 0 <= y < rows.len() ==> (#[trigger] rows[y]).len() <= 100,
        forall|y: int, x: int| 0 <= y < rows.len() && 0 <= x < rows[y].len() ==> #[trigger] rows[y][x] != '\n',
        rect(rows),
        0 <= my < rows.len(),
        0 <= mx < rows[my].len(),
        rows[my][mx] == '@',
    ensures
        playable(lines(text)),
{
    lemma_lines_join(rows);
    lemma_scan_facts(rows);
    lemma_char_count_bound(rows);
    let k = lemma_scan_at(rows, my, mx);
    lemma_mage_found(scan(rows), k);
    assert(has_char(rows, '@'));
}

proof fn lemma_room_0()
    ensures
        playable(lines(ROOMS@[0]@)),
{
    reveal_strlit("#########\n#.......#\n#...o..e#\n#.......#\n#.@.....#\n#.......#\n#########");
    reveal_strlit("#########");
    reveal_strlit("#.......#");
    reveal_strlit("#...o..e#");
    reveal_strlit("#.@.....#");
    reveal_strlit("\n");
    assert(ROOMS@[0] == "#########\n#.......#\n#...o..e#\n#.......#\n#.@.....#\n#.......#\n#########");
    let rows = seq!["#########"@, "#.......#"@, "#...o..e#"@, "#.......#"@, "#.@.....#"@, "#.......#"@, "#########"@];
    assert("#########\n#.......#\n#...o..e#\n#.......#\n#.@.....#\n#.......#\n#########"@ =~= "#########"@ + "\n"@ + "#.......#"@ + "\n"@ + "#...o..e#"@ + "\n"@ + "#.......#"@ + "\n"@ + "#.@.....#"@ + "\n"@ + "#.......#"@ + "\n"@ + "#########"@);
    reveal_with_fuel(nl_join, 8);
    assert(nl_join(rows) =~= "#########"@ + "\n"@ + "#.......#"@ + "\n"@ + "#...o..e#"@ + "\n"@ + "#.......#"@ + "\n"@ + "#.@.....#"@ + "\n"@ + "#.......#"@ + "\n"@ + "#########"@);
    lemma_room_text(ROOMS@[0]@, rows, 4, 2);
}

proof fn lemma_room_1()
    ensures
        playable(lines(ROOMS@[1]@)),
{
    reveal_strlit("##########\n#........#\n#..s..o..#\n#..s.....#\n#.@s..o..#\n#........#\n##########");
    reveal_strlit("##########");
    reveal_strlit("#........#");
    reveal_strlit("#..s.....#");
    reveal_strlit("#..s..o..#");
    reveal_strlit("#.@s..o..#");
    reveal_strlit("\n");
    assert(ROOMS@[1] == "##########\n#........#\n#..s..o..#\n#..s.....#\n#.@s..o..#\n#........#\n##########");
    let rows = seq!["##########"@, "#........#"@, "#..s..o..#"@, "#..s.....#"@, "#.@s..o..#"@, "#........#"@, "##########"@];
    assert("##########\n#........#\n#..s..o..#\n#..s.....#\n#.@s..o..#\n#........#\n##########"@ =~= "##########"@ + "\n"@ + "#........#"@ + "\n"@ + "#..s..o..#"@ + "\n"@ + "#..s.....#"@ + "\n"@ + "#.@s..o..#"@ + "\n"@ + "#........#"@ + "\n"@ + "##########"@);
    reveal_with_fuel(nl_join, 8);
    assert(nl_join(rows) =~= "##########"@ + "\n"@ + "#........#"@ + "\n"@ + "#..s..o..#"@ + "\n"@ + "#..s.....#"@ + "\n"@ + "#.@s..o..#"@ + "\n"@ + "#........#"@ + "\n"@ + "##########"@);
    lemma_room_text(ROOMS@[1]@, rows, 4, 2);
}

proof fn lemma_room_2()
    ensures
        playable(lines(ROOMS@[2]@)),
{
    reveal_strlit("##########\n#........#\n#..~~~.e.#\n#..~~~...#\n#...o....#\n#........#\n#.@......#\n##########");
    reveal_strlit("##########");
    reveal_strlit("#........#");
    reveal_strlit("#...o....#");
    reveal_strlit("#..~~~...#");
    reveal_strlit("#..~~~.e.#");
    reveal_strlit("#.@......#");
    reveal_strlit("\n");
    assert(ROOMS@[2] == "##########\n#........#\n#..~~~.e.#\n#..~~~...#\n#...o....#\n#........#\n#.@......#\n##########");
    let rows = seq!["##########"@, "#........#"@, "#..~~~.e.#"@, "#..~~~...#"@, "#...o....#"@, "#........#"@, "#.@......#"@, "##########"@];
    assert("##########\n#........#\n#..~~~.e.#\n#..~~~...#\n#...o....#\n#........#\n#.@......#\n##########"@ =~= "##########"@ + "\n"@ + "#........#"@ + "\n"@ + "#..~~~.e.#"@ + "\n"@ + "#..~~~...#"@ + "\n"@ + "#...o....#"@ + "\n"@ + "#........#"@ + "\n"@ + "#.@......#"@ + "\n"@ + "##########"@);
    reveal_with_fuel(nl_join, 9);
    assert(nl_join(rows) =~= "##########"@ + "\n"@ + "#........#"@ + "\n"@ + "#..~~~.e.#"@ + "\n"@ + "#..~~~...#"@ + "\n"@ + "#...o....#"@ + "\n"@ + "#........#"@ + "\n"@ + "#.@......#"@ + "\n"@ + "##########"@);
    lemma_room_text(ROOMS@[2]@, rows, 6, 2);
}

proof fn lemma_room_3()
    ensures
        playable(lines(ROOMS@[3]@)),
{
    reveal_strlit("###########\n#....W....#\n#.o..W..e.#\n#....W....#\n#.~~...~~.#\n#.~~.@.~~.#\n#....H..o.#\n###########");
    reveal_strlit("###########");
    reveal_strlit("#....H..o.#");
    reveal_strlit("#....W....#");
    reveal_strlit("#.o..W..e.#");
    reveal_strlit("#.~~...~~.#");
    reveal_strlit("#.~~.@.~~.#");
    reveal_strlit("\n");
    assert(ROOMS@[3] == "###########\n#....W....#\n#.o..W..e.#\n#....W....#\n#.~~...~~.#\n#.~~.@.~~.#\n#....H..o.#\n###########");
    let rows = seq!["###########"@, "#....W....#"@, "#.o..W..e.#"@, "#....W....#"@, "#.~~...~~.#"@, "#.~~.@.~~.#"@, "#....H..o.#"@, "###########"@];
    assert("###########\n#....W....#\n#.o..W..e.#\n#....W....#\n#.~~...~~.#\n#.~~.@.~~.#\n#....H..o.#\n###########"@ =~= "###########"@ + "\n"@ + "#....W....#"@ + "\n"@ + "#.o..W..e.#"@ + "\n"@ + "#....W....#"@ + "\n"@ + "#.~~...~~.#"@ + "\n"@ + "#.~~.@.~~.#"@ + "\n"@ + "#....H..o.#"@ + "\n"@ + "###########"@);
    reveal_with_fuel(nl_join, 9);
    assert(nl_join(rows) =~= "###########"@ + "\n"@ + "#....W....#"@ + "\n"@ + "#.o..W..e.#"@ + "\n"@ + "#....W....#"@ + "\n"@ + "#.~~...~~.#"@ + "\n"@ + "#.~~.@.~~.#"@ + "\n"@ + "#....H..o.#"@ + "\n"@ + "###########"@);
    lemma_room_text(ROOMS@[3]@, rows, 5, 5);
}

proof fn lemma_room_4()
    ensures
        playable(lines(ROOMS@[4]@)),
{
    reveal_strlit("###########\n#.........#\n#.o.s.....#\n#.........#\n#..~~.~~..#\n#.......e.#\n#....@....#\n###########");
    reveal_strlit("###########");
    reveal_strlit("#.........#");
    reveal_strlit("#.......e.#");
    reveal_strlit("#....@....#");
    reveal_strlit("#..~~.~~..#");
    reveal_strlit("#.o.s.....#");
    reveal_strlit("\n");
    assert(ROOMS@[4] == "###########\n#.........#\n#.o.s.....#\n#.........#\n#..~~.~~..#\n#.......e.#\n#....@....#\n###########");
    let rows = seq!["###########"@, "#.........#"@, "#.o.s.....#"@, "#.........#"@, "#..~~.~~..#"@, "#.......e.#"@, "#....@....#"@, "###########"@];
    assert("###########\n#.........#\n#.o.s.....#\n#.........#\n#..~~.~~..#\n#.......e.#\n#....@....#\n###########"@ =~= "###########"@ + "\n"@ + "#.........#"@ + "\n"@ + "#.o.s.....#"@ + "\n"@ + "#.........#"@ + "\n"@ + "#..~~.~~..#"@ + "\n"@ + "#.......e.#"@ + "\n"@ + "#....@....#"@ + "\n"@ + "###########"@);
    reveal_with_fuel(nl_join, 9);
    assert(nl_join(rows) =~= "###########"@ + "\n"@ + "#.........#"@ + "\n"@ + "#.o.s.....#"@ + "\n"@ + "#.........#"@ + "\n"@ + "#..~~.~~..#"@ + "\n"@ + "#.......e.#"@ + "\n"@ + "#....@....#"@ + "\n"@ + "###########"@);
    lemma_room_text(ROOMS@[4]@, rows, 6, 5);
}

proof fn lemma_room_5()
    ensures
        playable(lines(ROOMS@[5]@)),
{
    reveal_strlit("###########\n#.........#\n#....B....#\n#.........#\n#.s.....s.#\n#....@....#\n#...H.....#\n###########");
    reveal_strlit("###########");
    reveal_strlit("#.........#");
    reveal_strlit("#....@....#");
    reveal_strlit("#....B....#");
    reveal_strlit("#...H.....#");
    reveal_strlit("#.s.....s.#");
    reveal_strlit("\n");
    assert(ROOMS@[5] == "###########\n#.........#\n#....B....#\n#.........#\n#.s.....s.#\n#....@....#\n#...H.....#\n###########");
    let rows = seq!["###########"@, "#.........#"@, "#....B....#"@, "#.........#"@, "#.s.....s.#"@, "#....@....#"@, "#...H.....#"@, "###########"@];
    assert("###########\n#.........#\n#....B....#\n#.........#\n#.s.....s.#\n#....@....#\n#...H.....#\n###########"@ =~= "###########"@ + "\n"@ + "#.........#"@ + "\n"@ + "#....B....#"@ + "\n"@ + "#.........#"@ + "\n"@ + "#.s.....s.#"@ + "\n"@ + "#....@....#"@ + "\n"@ + "#...H.....#"@ + "\n"@ + "###########"@);
    reveal_with_fuel(nl_join, 9);
    assert(nl_join(rows) =~= "###########"@ + "\n"@ + "#.........#"@ + "\n"@ + "#....B....#"@ + "\n"@ + "#.........#"@ + "\n"@ + "#.s.....s.#"@ + "\n"@ + "#....@....#"@ + "\n"@ + "#...H.....#"@ + "\n"@ + "###########"@);
    lemma_room_text(ROOMS@[5]@, rows, 5, 5);
}

/// A loaded room is ready for the mage's turn.
pub proof fn lemma_room_ready(i: int, g: GameState)
    requires
        0 <= i < ROOM_COUNT,
        loaded(lines(ROOMS@[i]@), i as usize, false, g),
    ensures
        crate::turn_ok(g),
{
    law_rooms_playable();
    assert(playable(lines(ROOMS@[i]@)));
    lemma_loaded_wf(lines(ROOMS@[i]@), i as usize, false, g);
    lemma_loaded_ready(lines(ROOMS@[i]@), i as usize, false, g);
}

/// Every room of the game loads into a playable battle.
pub proof fn law_rooms_playable()
    ensures
        forall|i: int| 0 <= i < ROOM_COUNT ==> #[trigger] playable(lines(ROOMS@[i]@)),
{
    lemma_room_0();
    lemma_room_1();
    lemma_room_2();
    lemma_room_3();
    lemma_room_4();
    lemma_room_5();
    assert forall|i: int| 0 <= i < ROOM_COUNT implies #[trigger] playable(lines(ROOMS@[i]@)) by {
        if i == 0 {
        } else if i == 1 {
        } else if i == 2 {
        } else if i == 3 {
        } else if i == 4 {
        } else {
        }
    }
}

} // verus!
