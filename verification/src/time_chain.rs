//! The time chain: who acts next, and advancing an actor's time.
//!
//! Times are integers in units of 1/6; ties break by mage first, then by id.
use crate::config;
use crate::state::{Entity, GameState, Kind, is_alive, eff_speed_spec};
use crate::{isort, lemma_isort, lemma_proj_init, proj_advance, proj_entry, proj_init, proj_slots, ChainSlot, ProjEntry};
use vstd::prelude::*;

verus! {

/// Mages rank before enemies at equal time.
pub open spec fn rank_spec(e: Entity) -> int {
    if e.kind == Kind::Mage {
        0
    } else {
        1
    }
}

/// `a` acts strictly before `b`: earlier time, then mage first, then lower id.
pub open spec fn key_lt(a: Entity, b: Entity) -> bool {
    a.time < b.time || (a.time == b.time && (rank_spec(a) < rank_spec(b) || (rank_spec(a) == rank_spec(b)
        && a.id < b.id)))
}

/// `a` and `b` have the same ordering key.
pub open spec fn key_eq(a: Entity, b: Entity) -> bool {
    a.time == b.time && rank_spec(a) == rank_spec(b) && a.id == b.id
}

/// Entity `i` is the next actor: alive, no alive entity orders strictly before it,
/// and no earlier alive entity ties with it.
pub open spec fn is_next_actor(s: Seq<Entity>, i: int) -> bool {
    &&& 0 <= i < s.len()
    &&& is_alive(s[i])
    &&& forall|j: int| 0 <= j < s.len() && is_alive(#[trigger] s[j]) ==> !key_lt(s[j], s[i])
    &&& forall|j: int| 0 <= j < i && is_alive(#[trigger] s[j]) ==> key_lt(s[i], s[j])
}

/// Entity after one action: its time advances by one step of its effective speed and
/// one hasted turn is used up.
pub open spec fn advanced(e: Entity) -> Entity {
    Entity {
        time: (e.time + config::time_step_spec(eff_speed_spec(e))) as i64,
        haste_turns: if e.haste_turns > 0 {
            (e.haste_turns - 1) as u32
        } else {
            e.haste_turns
        },
        ..e
    }
}

/// Advances one actor's time (and spends one hasted turn).
pub fn advance_time(e: &mut Entity)
    requires
        old(e).time <= i64::MAX - 12,
    ensures
        *final(e) == advanced(*old(e)),
{
    let step = config::time_step(e.eff_speed_halves());
    e.time = e.time + step;
    if e.haste_turns > 0 {
        e.haste_turns = e.haste_turns - 1;
    }
}

fn mage_rank(e: &Entity) -> (r: u8)
    ensures
        r == rank_spec(*e),
{
    if e.kind.is_mage() {
        0
    } else {
        1
    }
}

/// `key_lt` computed.
pub fn acts_before(a: &Entity, b: &Entity) -> (r: bool)
    ensures
        r == key_lt(*a, *b),
{
    if a.time != b.time {
        return a.time < b.time;
    }
    let ra = mage_rank(a);
    let rb = mage_rank(b);
    if ra != rb {
        return ra < rb;
    }
    a.id < b.id
}

/// Index of the next actor: the alive entity with the smallest (time, mage first, id);
/// `None` when nobody is alive.
pub fn next_actor_index(g: &GameState) -> (r: Option<usize>)
    ensures
        match r {
            Some(i) => is_next_actor(g.entities@, i as int),
            None => forall|j: int| 0 <= j < g.entities@.len() ==> !is_alive(#[trigger] g.entities@[j]),
        },
{
    let mut best: Option<usize> = None;
    let mut i: usize = 0;
    while i < g.entities.len()
        invariant
            i <= g.entities@.len(),
            match best {
                Some(b) => {
                    &&& b < i
                    &&& is_alive(g.entities@[b as int])
                    &&& forall|j: int|
                        0 <= j < i && is_alive(#[trigger] g.entities@[j]) ==> !key_lt(
                            g.entities@[j],
                            g.entities@[b as int],
                        )
                    &&& forall|j: int|
                        0 <= j < b && is_alive(#[trigger] g.entities@[j]) ==> key_lt(
                            g.entities@[b as int],
                            g.entities@[j],
                        )
                },
                None => forall|j: int| 0 <= j < i ==> !is_alive(#[trigger] g.entities@[j]),
            },
        decreases g.entities@.len() - i,
    {
        if g.entities[i].alive() {
            match best {
                None => {
                    best = Some(i);
                },
                Some(b) => {
                    if acts_before(&g.entities[i], &g.entities[b]) {
                        proof {
                            lemma_key_lt_trans_total(g.entities@, b as int, i as int);
                        }
                        best = Some(i);
                    } else {
                        proof {
                            lemma_key_lt_total(g.entities@[b as int], g.entities@[i as int]);
                        }
                    }
                },
            }
        }
        i = i + 1;
    }
    best
}

proof fn lemma_key_lt_total(a: Entity, b: Entity)
    ensures
        !key_lt(b, a) ==> key_lt(a, b) || key_eq(a, b),
        key_lt(a, b) ==> !key_lt(b, a),
{
}

proof fn lemma_key_lt_trans_total(s: Seq<Entity>, b: int, i: int)
    requires
        0 <= b < i < s.len(),
        key_lt(s[i], s[b]),
    ensures
        forall|j: int| 0 <= j < s.len() && !key_lt(#[trigger] s[j], s[b]) ==> !key_lt(s[j], s[i]),
        forall|j: int| 0 <= j < s.len() && key_lt(s[b], #[trigger] s[j]) ==> key_lt(s[i], s[j]),
{
}

/// Entity `a` comes before entity `b` in the chain (ties broken by index).
pub open spec fn chain_before(s: Seq<Entity>, a: int, b: int) -> bool {
    key_lt(s[a], s[b]) || (key_eq(s[a], s[b]) && a < b)
}

/// `r` lists the alive entities of `s` exactly once each, in acting order.
pub open spec fn is_chain_order(s: Seq<Entity>, r: Seq<usize>) -> bool {
    &&& forall|k: int| 0 <= k < r.len() ==> (#[trigger] r[k]) < s.len() && is_alive(s[r[k] as int])
    &&& forall|j: int| 0 <= j < s.len() && is_alive(#[trigger] s[j]) ==> r.contains(j as usize)
    &&& forall|a: int, b: int| 0 <= a < b < r.len() ==> chain_before(s, #[trigger] r[a] as int, #[trigger] r[b] as int)
}

/// All alive entities in acting order (same ordering as `next_actor_index`), for
/// drawing the turn order.
pub fn order_chain(g: &GameState) -> (r: Vec<usize>)
    ensures
        is_chain_order(g.entities@, r@),
        r@.no_duplicates(),
{
    let ghost s = g.entities@;
    let mut out: Vec<usize> = Vec::new();
    let mut i: usize = 0;
    while i < g.entities.len()
        invariant
            s == g.entities@,
            i <= s.len(),
            forall|k: int| 0 <= k < out@.len() ==> (#[trigger] out@[k]) < i && is_alive(s[out@[k] as int]),
            forall|j: int| 0 <= j < i && is_alive(#[trigger] s[j]) ==> out@.contains(j as usize),
            forall|a: int, b: int|
                0 <= a < b < out@.len() ==> chain_before(s, #[trigger] out@[a] as int, #[trigger] out@[b] as int),
        decreases s.len() - i,
    {
        if g.entities[i].alive() {
            let mut p: usize = 0;
            while p < out.len() && !acts_before(&g.entities[i], &g.entities[out[p]])
                invariant
                    s == g.entities@,
                    i < s.len(),
                    p <= out@.len(),
                    forall|k: int| 0 <= k < out@.len() ==> (#[trigger] out@[k]) < i && is_alive(s[out@[k] as int]),
                    forall|k: int| 0 <= k < p ==> !key_lt(s[i as int], s[(#[trigger] out@[k]) as int]),
                decreases out@.len() - p,
            {
                p = p + 1;
            }
            let ghost before = out@;
            out.insert(p, i);
            proof {
                assert forall|k: int| 0 <= k < p implies chain_before(s, #[trigger] before[k] as int, i as int) by {
                    lemma_key_lt_total(s[i as int], s[before[k] as int]);
                }
                if p < before.len() {
                    assert forall|k: int| p <= k < before.len() implies chain_before(
                        s,
                        i as int,
                        #[trigger] before[k] as int,
                    ) by {
                        assert(chain_before(s, before[p as int] as int, before[k] as int) || k == p);
                        lemma_key_lt_total(s[before[p as int] as int], s[before[k] as int]);
                    }
                }
                assert forall|a: int, b: int| 0 <= a < b < out@.len() implies chain_before(
                    s,
                    #[trigger] out@[a] as int,
                    #[trigger] out@[b] as int,
                ) by {
                    if a < p && b < p {
                        assert(out@[a] == before[a] && out@[b] == before[b]);
                    } else if a < p && b == p {
                    } else if a < p && b > p {
                        assert(out@[b] == before[b - 1]);
                    } else if a == p {
                        assert(out@[b] == before[b - 1]);
                    } else {
                        assert(out@[a] == before[a - 1] && out@[b] == before[b - 1]);
                    }
                }
                assert forall|j: int| 0 <= j <= i && is_alive(#[trigger] s[j]) implies out@.contains(j as usize) by {
                    if j < i {
                        let k = choose|k: int| 0 <= k < before.len() && before[k] == j as usize;
                        if k < p {
                            assert(out@[k] == j as usize);
                        } else {
                            assert(out@[k + 1] == j as usize);
                        }
                    } else {
                        assert(out@[p as int] == i);
                    }
                }
            }
        }
        i = i + 1;
    }
    proof {
        assert forall|a: int, b: int| 0 <= a < b < out@.len() implies out@[a] != out@[b] by {
            assert(chain_before(s, out@[a] as int, out@[b] as int));
        }
    }
    out
}

/// The next actor is unique: two entities that both qualify are the same one.
pub proof fn law_next_actor_unique(s: Seq<Entity>, i: int, j: int)
    requires
        is_next_actor(s, i),
        is_next_actor(s, j),
    ensures
        i == j,
{
    if i < j {
        assert(key_lt(s[j], s[i]));
    } else if j < i {
        assert(key_lt(s[i], s[j]));
    }
}

/// At equal time the mage acts before any enemy, whatever the ids.
pub proof fn law_mage_first_on_tie(m: Entity, e: Entity)
    requires
        m.kind == Kind::Mage,
        e.kind != Kind::Mage,
        m.time == e.time,
    ensures
        key_lt(m, e),
        !key_lt(e, m),
{
}

/// The entity after `n` actions.
pub open spec fn advanced_n(e: Entity, n: nat) -> Entity
    decreases n,
{
    if n == 0 {
        e
    } else {
        advanced(advanced_n(e, (n - 1) as nat))
    }
}

/// Without haste, `n` actions move an actor's time forward by exactly `n` steps of its
/// speed: time stays a whole multiple of the step away from where it started.
pub proof fn law_time_whole_steps(e: Entity, n: nat)
    requires
        e.haste_turns == 0,
        0 <= e.time,
        e.time + 12 * n <= i64::MAX,
    ensures
        advanced_n(e, n).time == e.time + n * config::time_step_spec(eff_speed_spec(e)),
        advanced_n(e, n).haste_turns == 0,
        eff_speed_spec(advanced_n(e, n)) == eff_speed_spec(e),
    decreases n,
{
    if n > 0 {
        law_time_whole_steps(e, (n - 1) as nat);
        config::law_time_step_exact(eff_speed_spec(e), eff_speed_spec(e));
        let st = config::time_step_spec(eff_speed_spec(e));
        assert(st <= 12) by {
            assert(config::clamp_speed_spec(eff_speed_spec(e)) >= 1);
            assert(st * (config::clamp_speed_spec(eff_speed_spec(e)) as int) == 12);
        }
        assert((n - 1) * st <= (n - 1) * 12) by (nonlinear_arith)
            requires
                st <= 12,
                n >= 1,
        ;
        assert(n * st == (n - 1) * st + st) by (nonlinear_arith);
    }
}

proof fn lemma_proj_len(s: Seq<ProjEntry>, n: nat, f: bool)
    ensures
        proj_slots(s, n, f).len() == if s.len() == 0 {
            0
        } else {
            n
        },
    decreases n,
{
    if n > 0 && s.len() > 0 {
        let t = isort(s);
        lemma_isort(s);
        let a = t[0];
        let releasing = a.kind == Kind::Mage && a.channel && f;
        lemma_proj_len(t.update(0, proj_advance(a)), (n - 1) as nat, f && !releasing);
    }
}

proof fn lemma_proj_prefix(s: Seq<ProjEntry>, m: nat, n: nat, f: bool)
    requires
        m <= n,
    ensures
        forall|k: int| 0 <= k < proj_slots(s, m, f).len() ==> #[trigger] proj_slots(s, m, f)[k] == proj_slots(s, n, f)[k],
    decreases m,
{
    if m > 0 && s.len() > 0 {
        let t = isort(s);
        let a = t[0];
        let releasing = a.kind == Kind::Mage && a.channel && f;
        let s2 = t.update(0, proj_advance(a));
        let f2 = f && !releasing;
        lemma_proj_prefix(s2, (m - 1) as nat, (n - 1) as nat, f2);
        let x = ChainSlot { kind: a.kind, id: a.id, releasing };
        lemma_isort(s);
        lemma_proj_len(s2, (m - 1) as nat, f2);
        lemma_proj_len(s2, (n - 1) as nat, f2);
        assert(proj_slots(s, m, f) == seq![x] + proj_slots(s2, (m - 1) as nat, f2));
        assert(proj_slots(s, n, f) == seq![x] + proj_slots(s2, (n - 1) as nat, f2));
        assert forall|k: int| 0 <= k < proj_slots(s, m, f).len() implies #[trigger] proj_slots(s, m, f)[k]
            == proj_slots(s, n, f)[k] by {
            if k > 0 {
                assert(proj_slots(s, m, f)[k] == proj_slots(s2, (m - 1) as nat, f2)[k - 1]);
                assert(proj_slots(s, n, f)[k] == proj_slots(s2, (n - 1) as nat, f2)[k - 1]);
            }
        }
    }
}

/// Some alive entity of `s0` has the id and kind of `e`.
pub open spec fn names_alive(s0: Seq<Entity>, id: u32, kind: Kind) -> bool {
    exists|j: int| 0 <= j < s0.len() && is_alive(s0[j]) && #[trigger] s0[j].id == id && s0[j].kind == kind
}

proof fn lemma_proj_named(s: Seq<ProjEntry>, n: nat, f: bool, s0: Seq<Entity>)
    requires
        forall|k: int| 0 <= k < s.len() ==> names_alive(s0, #[trigger] s[k].id, s[k].kind),
    ensures
        forall|k: int|
            0 <= k < proj_slots(s, n, f).len() ==> names_alive(
                s0,
                #[trigger] proj_slots(s, n, f)[k].id,
                proj_slots(s, n, f)[k].kind,
            ),
    decreases n,
{
    if n > 0 && s.len() > 0 {
        let t = isort(s);
        lemma_isort(s);
        let a = t[0];
        assert(names_alive(s0, a.id, a.kind)) by {
            let j = choose|j: int| 0 <= j < s.len() && s[j] == t[0];
            assert(names_alive(s0, s[j].id, s[j].kind));
        }
        let releasing = a.kind == Kind::Mage && a.channel && f;
        let s2 = t.update(0, proj_advance(a));
        let f2 = f && !releasing;
        assert forall|k: int| 0 <= k < s2.len() implies names_alive(s0, #[trigger] s2[k].id, s2[k].kind) by {
            if k > 0 {
                let j = choose|j: int| 0 <= j < s.len() && s[j] == t[k];
                assert(names_alive(s0, s[j].id, s[j].kind));
            }
        }
        lemma_proj_named(s2, (n - 1) as nat, f2, s0);
        assert(proj_slots(s, n, f) == seq![ChainSlot { kind: a.kind, id: a.id, releasing }] + proj_slots(
            s2,
            (n - 1) as nat,
            f2,
        ));
        assert forall|k: int| 0 <= k < proj_slots(s, n, f).len() implies names_alive(
            s0,
            #[trigger] proj_slots(s, n, f)[k].id,
            proj_slots(s, n, f)[k].kind,
        ) by {
            if k > 0 {
                assert(proj_slots(s, n, f)[k] == proj_slots(s2, (n - 1) as nat, f2)[k - 1]);
            }
        }
    }
}

/// The projection of `n` turns has `n` slots when anything is alive and none otherwise;
/// every slot names an alive entity; projecting fewer turns gives a prefix of it.
pub proof fn law_projection_shape(s: Seq<Entity>, m: nat, n: nat)
    requires
        m <= n,
    ensures
        proj_slots(proj_init(s), n, true).len() == if exists|j: int| 0 <= j < s.len() && #[trigger] is_alive(s[j]) {
            n
        } else {
            0
        },
        forall|k: int|
            0 <= k < proj_slots(proj_init(s), n, true).len() ==> names_alive(
                s,
                #[trigger] proj_slots(proj_init(s), n, true)[k].id,
                proj_slots(proj_init(s), n, true)[k].kind,
            ),
        proj_slots(proj_init(s), m, true).len() <= proj_slots(proj_init(s), n, true).len(),
        forall|k: int|
            0 <= k < proj_slots(proj_init(s), m, true).len() ==> #[trigger] proj_slots(proj_init(s), m, true)[k]
                == proj_slots(proj_init(s), n, true)[k],
{
    let t = proj_init(s);
    lemma_proj_init(s);
    lemma_proj_len(t, n, true);
    lemma_proj_len(t, m, true);
    if exists|j: int| 0 <= j < s.len() && #[trigger] is_alive(s[j]) {
        let j = choose|j: int| 0 <= j < s.len() && #[trigger] is_alive(s[j]);
        assert(t.contains(proj_entry(s[j])));
    } else if t.len() > 0 {
        let j = choose|j: int| 0 <= j < s.len() && is_alive(s[j]) && #[trigger] t[0] == proj_entry(s[j]);
        assert(is_alive(s[j]));
    }
    assert forall|k: int| 0 <= k < t.len() implies names_alive(s, #[trigger] t[k].id, t[k].kind) by {
        let j = choose|j: int| 0 <= j < s.len() && is_alive(s[j]) && #[trigger] t[k] == proj_entry(s[j]);
        assert(s[j].id == t[k].id);
    }
    lemma_proj_named(t, n, true, s);
    lemma_proj_prefix(t, m, n, true);
}

/// No slot before `k` is a mage's.
pub open spec fn no_mage_before(slots: Seq<ChainSlot>, k: int) -> bool {
    forall|j: int| 0 <= j < k ==> (#[trigger] slots[j]).kind != Kind::Mage
}

proof fn lemma_proj_release(s: Seq<ProjEntry>, n: nat, f: bool, c: bool)
    requires
        forall|k: int| 0 <= k < s.len() && (#[trigger] s[k]).kind == Kind::Mage ==> s[k].channel == c,
    ensures
        forall|k: int|
            0 <= k < proj_slots(s, n, f).len() ==> ((#[trigger] proj_slots(s, n, f)[k]).releasing <==> (
            proj_slots(s, n, f)[k].kind == Kind::Mage && c && f && no_mage_before(proj_slots(s, n, f), k))),
    decreases n,
{
    if n > 0 && s.len() > 0 {
        let t = isort(s);
        lemma_isort(s);
        let a = t[0];
        assert(a.kind == Kind::Mage ==> a.channel == c) by {
            let j = choose|j: int| 0 <= j < s.len() && s[j] == t[0];
            assert(s[j].kind == Kind::Mage ==> s[j].channel == c);
        }
        let releasing = a.kind == Kind::Mage && a.channel && f;
        let s2 = t.update(0, proj_advance(a));
        let f2 = f && !releasing;
        assert forall|k: int| 0 <= k < s2.len() && (#[trigger] s2[k]).kind == Kind::Mage implies s2[k].channel == c by {
            if k > 0 {
                let j = choose|j: int| 0 <= j < s.len() && s[j] == t[k];
                assert(s[j].kind == Kind::Mage ==> s[j].channel == c);
            }
        }
        lemma_proj_release(s2, (n - 1) as nat, f2, c);
        let x = ChainSlot { kind: a.kind, id: a.id, releasing };
        let rest = proj_slots(s2, (n - 1) as nat, f2);
        let all = proj_slots(s, n, f);
        assert(all == seq![x] + rest);
        assert forall|k: int| 0 <= k < all.len() implies ((#[trigger] all[k]).releasing <==> (all[k].kind == Kind::Mage
            && c && f && no_mage_before(all, k))) by {
            if k > 0 {
                assert(all[k] == rest[k - 1]);
                if no_mage_before(all, k) {
                    assert forall|j: int| 0 <= j < k - 1 implies (#[trigger] rest[j]).kind != Kind::Mage by {
                        assert(all[j + 1] == rest[j]);
                    }
                    assert(all[0].kind != Kind::Mage);
                } else if a.kind != Kind::Mage {
                    let j = choose|j: int| 0 <= j < k && (#[trigger] all[j]).kind == Kind::Mage;
                    assert(j > 0);
                    assert(all[j] == rest[j - 1]);
                    assert(!no_mage_before(rest, k - 1));
                }
            }
        }
    }
}

/// In the projection only the mage's first slot can be its release, and it is exactly
/// when the mage is charging.
pub proof fn law_projection_release(s: Seq<Entity>, n: nat, c: bool)
    requires
        forall|j: int| 0 <= j < s.len() && (#[trigger] s[j]).kind == Kind::Mage ==> (s[j].channel is Some) == c,
    ensures
        forall|k: int|
            0 <= k < proj_slots(proj_init(s), n, true).len() ==> ((#[trigger] proj_slots(proj_init(s), n, true)[k]).releasing
                <==> (proj_slots(proj_init(s), n, true)[k].kind == Kind::Mage && c && no_mage_before(
                proj_slots(proj_init(s), n, true),
                k,
            ))),
{
    let t = proj_init(s);
    lemma_proj_init(s);
    assert forall|k: int| 0 <= k < t.len() && (#[trigger] t[k]).kind == Kind::Mage implies t[k].channel == c by {
        let j = choose|j: int| 0 <= j < s.len() && is_alive(s[j]) && #[trigger] t[k] == proj_entry(s[j]);
        assert(s[j].kind == Kind::Mage);
    }
    lemma_proj_release(t, n, true, c);
}

} // verus!
