use magicraid_sim::config::{
    clamp_speed, time_step, BOSS_HP, IMP_DMG, IMP_HP, MAGE_HP, POTION_COUNT, SPELL_CAP, SPEED_HALVES_HASTE,
};
use magicraid_sim::ai::enemy_act;
use magicraid_sim::damage::{deal_damage, StepCtx, TierTable};
use magicraid_sim::harness::{choose_action, choose_pick, play, RunOp};
use magicraid_sim::trace::trace_json;
use magicraid_sim::ready::step_ready;
use magicraid_sim::roguelite::{base_playable, room_playable};
use magicraid_sim::terrain::{fire_tick, ignite_oil};
use magicraid_sim::movement::walk_brake;
use magicraid_sim::render::events_json;
use magicraid_sim::time_chain::{advance_time, next_actor_index};
use magicraid_sim::{
    apply_drop, apply_pick, hash32, init_base, init_room, project_chain, step, Action, Channel, Entity, Event,
    GameState, Kind, Mulberry32, PickResult, Reject, RunState, Spell, Status, Target, Tile,
};

fn board(w: i32, h: i32, entities: Vec<Entity>) -> GameState {
    GameState {
        w,
        h,
        tiles: vec![vec![Tile::Floor; w as usize]; h as usize],
        fire: vec![vec![0; w as usize]; h as usize],
        burn_t: vec![vec![0; w as usize]; h as usize],
        entities,
        room_idx: 0,
        core: None,
    }
}

#[test]
fn hash32_known_values() {
    assert_eq!(hash32(""), 2166136261);
    assert_eq!(hash32("a"), 3826002220);
    assert_eq!(hash32("123|picks|0"), 2247635589);
}

#[test]
fn mulberry32_known_draws() {
    let mut r = Mulberry32::new(42);
    assert_eq!(r.next_u32(), 2581720956);
    assert_eq!(r.next_u32(), 1925393290);
    let mut z = Mulberry32::new(0);
    assert_eq!(z.below(6), 1);
}

#[test]
fn speed_clamp_and_time_steps() {
    assert_eq!(clamp_speed(0), 1);
    assert_eq!(clamp_speed(9), 4);
    assert_eq!(clamp_speed(3), 3);
    assert_eq!(time_step(0), 12);
    assert_eq!(time_step(1), 12);
    assert_eq!(time_step(2), 6);
    assert_eq!(time_step(3), 4);
    assert_eq!(time_step(4), 3);
    assert_eq!(time_step(200), 3);
}

#[test]
fn tier_table_set_read_and_forget() {
    let mut t = TierTable::default();
    assert_eq!(t.of("fire"), 1);
    t.set("fire", 2);
    assert_eq!(t.of("fire"), 2);
    assert_eq!(t.of("hook"), 1);
    t.set("nothing", 2);
    assert_eq!(t.of("nothing"), 1);
    t.remove("fire");
    assert_eq!(t.of("fire"), 1);
}

#[test]
fn hand_stays_capped_and_distinct() {
    let mut run = RunState::new(9);
    assert_eq!(run.potions, POTION_COUNT);
    assert_eq!(apply_pick(&mut run, Spell::OilFlask), PickResult::Done);
    assert_eq!(apply_pick(&mut run, Spell::Fire), PickResult::Done);
    assert_eq!(apply_pick(&mut run, Spell::Fire), PickResult::Done);
    assert_eq!(run.tiers.of("fire"), 2);
    assert_eq!(apply_pick(&mut run, Spell::Fire), PickResult::Done);
    assert_eq!(run.tiers.of("fire"), 2, "no tier past the highest");
    assert_eq!(apply_pick(&mut run, Spell::Hook), PickResult::Done);
    assert_eq!(apply_pick(&mut run, Spell::Haste), PickResult::NeedDrop);
    assert_eq!(run.acquired.len(), SPELL_CAP);
    apply_drop(&mut run, Spell::Haste, Spell::Fire);
    assert_eq!(run.acquired, vec![Spell::OilFlask, Spell::Haste, Spell::Hook]);
    assert_eq!(run.tiers.of("fire"), 1);
    assert_eq!(run.tiers.of("haste"), 1);
}

#[test]
fn dropping_an_unheld_spell_changes_nothing() {
    let mut run = RunState::new(1);
    apply_pick(&mut run, Spell::Hook);
    let log = run.op_log.len();
    apply_drop(&mut run, Spell::Haste, Spell::Fire);
    assert_eq!(run.acquired, vec![Spell::Hook]);
    assert_eq!(run.op_log.len(), log);
    assert_eq!(run.tiers.of("haste"), 1);
}

#[test]
fn mage_acts_first_on_equal_time_whatever_the_ids() {
    let imp = Entity::new(1, Kind::Imp, 0, 0);
    let mage = Entity::new(5, Kind::Mage, 2, 0);
    let g = board(3, 1, vec![imp, mage]);
    let i = next_actor_index(&g).unwrap();
    assert_eq!(g.entities[i].kind, Kind::Mage);
}

#[test]
fn earlier_clock_acts_first() {
    let mut mage = Entity::new(0, Kind::Mage, 0, 0);
    mage.time = 6;
    let imp = Entity::new(1, Kind::Imp, 2, 0);
    let g = board(3, 1, vec![mage, imp]);
    let i = next_actor_index(&g).unwrap();
    assert_eq!(g.entities[i].id, 1);
}

#[test]
fn nobody_acts_when_all_are_down() {
    let mut mage = Entity::new(0, Kind::Mage, 0, 0);
    mage.hp = 0;
    let g = board(1, 1, vec![mage]);
    assert_eq!(next_actor_index(&g), None);
}

#[test]
fn clocks_move_in_whole_steps() {
    let mut e = Entity::new(0, Kind::Mage, 0, 0);
    e.speed_halves = SPEED_HALVES_HASTE;
    for _ in 0..5 {
        advance_time(&mut e);
    }
    assert_eq!(e.time, 20);
    let mut h = Entity::new(0, Kind::Mage, 0, 0);
    h.haste_turns = 2;
    for _ in 0..3 {
        advance_time(&mut h);
    }
    assert_eq!(h.time, 4 + 4 + 6);
    assert_eq!(h.haste_turns, 0);
}

#[test]
fn projection_starts_with_next_actor() {
    let mut mage = Entity::new(0, Kind::Mage, 0, 0);
    mage.time = 6;
    let a = Entity::new(1, Kind::Imp, 3, 0);
    let mut b = Entity::new(2, Kind::Imp, 5, 0);
    b.time = 3;
    let g = board(6, 1, vec![mage, a, b]);
    let next = next_actor_index(&g).unwrap();
    let chain = project_chain(&g, 3);
    assert_eq!(chain[0].id, g.entities[next].id);
    let ids: Vec<u32> = chain.iter().map(|s| s.id).collect();
    assert_eq!(ids, vec![1, 2, 0]);
}

#[test]
fn projection_marks_only_the_first_release() {
    let mut mage = Entity::new(0, Kind::Mage, 0, 0);
    mage.channel = Some(Channel { spell: "heavy", tx: 2, ty: 0, ready: true, interrupted: false });
    let g = board(3, 1, vec![mage]);
    let chain = project_chain(&g, 3);
    let rel: Vec<bool> = chain.iter().map(|s| s.releasing).collect();
    assert_eq!(rel, vec![true, false, false]);
}

#[test]
fn floor_fire_burns_down_and_stays_put() {
    let mage = Entity::new(0, Kind::Mage, 0, 0);
    let mut g = board(3, 1, vec![mage]);
    g.fire[0][2] = 2;
    let mut ctx = StepCtx::new();
    fire_tick(&mut g, &mut ctx);
    assert_eq!(g.fire[0][2], 1);
    assert_eq!(g.fire[0][1], 0, "fire does not spread over bare floor");
    assert_eq!(g.tiles[0][2], Tile::Floor);
    fire_tick(&mut g, &mut ctx);
    assert_eq!(g.fire[0][2], 0);
}

#[test]
fn damage_kills_and_interrupts() {
    let mut mage = Entity::new(0, Kind::Mage, 0, 0);
    mage.channel = Some(Channel { spell: "heavy", tx: 1, ty: 0, ready: false, interrupted: false });
    let imp = Entity::new(1, Kind::Imp, 1, 0);
    let mut g = board(2, 1, vec![mage, imp]);
    let mut ctx = StepCtx::new();
    deal_damage(&mut g, 0, IMP_DMG, &mut ctx);
    assert_eq!(g.entities[0].hp, MAGE_HP - IMP_DMG);
    assert!(g.entities[0].channel.as_ref().unwrap().interrupted);
    deal_damage(&mut g, 1, IMP_HP + 3, &mut ctx);
    assert_eq!(g.entities[1].hp, 0, "hit points stop at zero");
    assert!(ctx.events.contains(&Event::Died { id: 1 }));
    assert!(ctx.mage_hurt);
}

#[test]
fn overheated_golem_takes_double() {
    let mage = Entity::new(0, Kind::Mage, 0, 0);
    let mut boss = Entity::new(1, Kind::Boss, 2, 0);
    boss.exhausted = true;
    let mut g = board(3, 1, vec![mage, boss]);
    let mut ctx = StepCtx::new();
    deal_damage(&mut g, 1, 3, &mut ctx);
    assert_eq!(g.entities[1].hp, BOSS_HP - 6);
}

#[test]
fn step_refusals_leave_the_state_alone() {
    let mut g = init_base(&["#####", "#@#C#", "#####"]);
    let mut run = RunState::new(3);
    let before = g.clone();
    let r = step(&mut g, &mut run, Action::MoveTo { x: 2, y: 1 });
    assert_eq!(r.rejected, Some(Reject::BlockedDestination));
    let r = step(&mut g, &mut run, Action::MoveTo { x: 1, y: 1 });
    assert_eq!(r.rejected, Some(Reject::BlockedDestination), "the mage's own cell");
    let r = step(&mut g, &mut run, Action::MoveTo { x: 3, y: 1 });
    assert_eq!(r.rejected, Some(Reject::NoPath));
    let r = step(&mut g, &mut run, Action::Release);
    assert_eq!(r.rejected, Some(Reject::NothingToRelease));
    assert_eq!(r.status, Status::AwaitingInput);
    assert!(r.events.is_empty());
    g.mage_mut().hp = 3;
    run.potions = 0;
    let r = step(&mut g, &mut run, Action::Potion);
    assert_eq!(r.rejected, Some(Reject::CannotDrink));
    g.mage_mut().hp = before.mage().hp;
    assert_eq!(g.entities[0].time, before.entities[0].time);
    assert_eq!(g.entities[0].x, before.entities[0].x);
}

#[test]
fn agent_picks_by_preference() {
    assert_eq!(choose_pick(&[Spell::Haste, Spell::Hook, Spell::Fire]), Some(Spell::Fire));
    assert_eq!(choose_pick(&[Spell::Haste, Spell::Hook]), Some(Spell::Hook));
    assert_eq!(choose_pick(&[Spell::OilFlask, Spell::Haste]), Some(Spell::OilFlask));
    assert_eq!(choose_pick(&[]), None);
}

#[test]
fn agent_waits_without_enemies() {
    let g = board(3, 1, vec![Entity::new(0, Kind::Mage, 0, 0)]);
    let run = RunState::new(0);
    assert_eq!(choose_action(&g, &run), Action::Wait);
}

#[test]
fn agent_shoots_the_imp_before_the_eye() {
    let mage = Entity::new(0, Kind::Mage, 0, 1);
    let eye = Entity::new(1, Kind::Eye, 2, 1);
    let imp = Entity::new(2, Kind::Imp, 3, 1);
    let g = board(5, 3, vec![mage, eye, imp]);
    let run = RunState::new(0);
    let a = choose_action(&g, &run);
    assert_eq!(a, Action::Cast { spell: Spell::Bolt, target: Target::cell(3, 1) });
    let eye2 = Entity::new(1, Kind::Eye, 2, 0);
    let imp2 = Entity::new(2, Kind::Imp, 2, 2);
    let g2 = board(5, 3, vec![Entity::new(0, Kind::Mage, 0, 1), eye2, imp2]);
    assert_eq!(choose_action(&g2, &run), Action::Cast { spell: Spell::Bolt, target: Target::cell(2, 2) });
}

#[test]
fn agent_drinks_when_low_against_a_distant_golem() {
    let mut mage = Entity::new(0, Kind::Mage, 0, 0);
    mage.hp = 3;
    let boss = Entity::new(1, Kind::Boss, 7, 0);
    let g = board(8, 1, vec![mage, boss]);
    let run = RunState::new(0);
    assert_eq!(choose_action(&g, &run), Action::Potion);
}

#[test]
fn readiness_and_playable_maps() {
    for i in 0..6 {
        assert!(room_playable(i), "room {i}");
        assert!(step_ready(&init_room(i)));
    }
    assert!(!room_playable(6));
    assert!(base_playable(&["#@C#"]));
    assert!(!base_playable(&["#.C#"]), "no raider");
    assert!(!base_playable(&["#@C#", "##"]), "not rectangular");
    assert!(!base_playable(&[]));
    let mut g = init_room(0);
    g.mage_mut().x = 100;
    assert!(!step_ready(&g));
}

#[test]
fn burning_oil_kills_feed_a_tier_two_haste() {
    let mut mage = Entity::new(0, Kind::Mage, 0, 0);
    mage.haste_turns = 1;
    let mut imp = Entity::new(1, Kind::Imp, 2, 0);
    imp.hp = 1;
    let mut g = board(4, 1, vec![mage, imp]);
    g.tiles[0][1] = Tile::Oil;
    g.tiles[0][2] = Tile::Oil;
    let mut ctx = StepCtx::new();
    ctx.tiers.set("haste", 2);
    magicraid_sim::terrain::ignite_oil(&mut g, 1, 0, &mut ctx);
    assert_eq!(g.entities[1].hp, 0);
    assert_eq!(g.entities[0].haste_turns, 2);
    assert_eq!(g.fire[0][1], magicraid_sim::config::FIRE_DUR);
    assert_eq!(g.fire[0][3], 0, "floor does not catch");
    assert!(ctx.events.contains(&Event::Died { id: 1 }));
    assert!(ctx.events.contains(&Event::HasteGained { id: 0 }));
}

#[test]
fn control_returns_on_the_mage_turn() {
    let mut g = init_room(0);
    let mut run = RunState::new(5);
    for _ in 0..3 {
        let r = step(&mut g, &mut run, Action::Wait);
        assert_eq!(r.status, Status::AwaitingInput);
        let i = next_actor_index(&g).unwrap();
        assert_eq!(g.entities[i].kind, Kind::Mage);
    }
}

#[test]
fn walled_off_target_has_no_path() {
    let g = init_base(&["#####", "#@#.#", "#####"]);
    assert!(magicraid_sim::movement::find_path(&g, 1, 1, 3, 1).is_none());
    let g2 = init_base(&["#####", "#@..#", "#####"]);
    assert_eq!(magicraid_sim::movement::find_path(&g2, 1, 1, 3, 1), Some(vec![(2, 1), (3, 1)]));
}

#[test]
fn render_shows_a_fresh_room() {
    let g = magicraid_sim::init_room(0);
    let run = magicraid_sim::RunState::new(7);
    assert!(magicraid_sim::render::render_ready(&g));
    let bytes = magicraid_sim::render::render_json(&g, &run, magicraid_sim::Status::AwaitingInput, false);
    let text = String::from_utf8(bytes).unwrap();
    assert!(text.starts_with(&format!("{{\"w\":{},\"h\":{},\"status\":0,\"rejected\":false,\"room\":0,\"potions\":", g.w, g.h)));
    assert!(text.contains("\"acquired\":[],\"tiers\":{},\"chain\":[{\"k\":\"mage\",\"rel\":false}"));
    assert!(text.ends_with("]}"));
    assert_eq!(text.matches("{\"k\":").count(), 8);
}

#[test]
fn trace_lists_every_battle_step_of_the_run() {
    for seed in 0..3u32 {
        let text = String::from_utf8(trace_json(seed, 40)).unwrap();
        let head = format!("{{\"seed\":{seed},\"steps\":[{{\"op\":{{\"op\":\"init\"}},\"status\":\"input\",\"room\":0,\"potions\":{POTION_COUNT},\"acquired\":[],\"tiers\":{{}},\"ents\":[{{\"id\":0,\"k\":\"mage\"");
        assert!(text.starts_with(&head), "{}", &text[..200.min(text.len())]);
        assert!(text.ends_with("]}"));
        let entries = text.matches("{\"op\":{\"op\":").count();
        let next_rooms = text.matches("{\"op\":{\"op\":\"nextroom\"}").count();
        let t = play(seed, 40);
        let played_rooms = t.ops.iter().filter(|op| matches!(op, RunOp::NextRoom)).count();
        assert_eq!(entries, 1 + t.steps + played_rooms);
        assert_eq!(next_rooms, played_rooms);
        assert!(t.steps == 40 || matches!(t.outcome, Status::RunComplete | Status::Defeat));
    }
}

#[test]
fn enemy_turn_moves_one_cell_and_keeps_clocks() {
    let mut g = init_room(0);
    let before = g.clone();
    let i = g.entities.iter().position(|e| e.kind == Kind::Imp).unwrap();
    let mut ctx = StepCtx::new();
    enemy_act(&mut g, i, &mut ctx);
    let (a, b) = (&before.entities[i], &g.entities[i]);
    assert_eq!((b.x - a.x).abs().max((b.y - a.y).abs()), 1);
    for (k, (p, q)) in before.entities.iter().zip(g.entities.iter()).enumerate() {
        assert_eq!(p.time, q.time);
        if k != i {
            assert_eq!((p.x, p.y), (q.x, q.y));
        }
        if p.kind != Kind::Mage {
            assert_eq!(p.hp, q.hp);
        } else {
            assert!(q.hp <= p.hp);
        }
    }
}

#[test]
fn projection_is_a_prefix_of_a_longer_one() {
    let g = init_room(0);
    let long = project_chain(&g, 6);
    let short = project_chain(&g, 2);
    assert_eq!(long.len(), 6);
    assert_eq!(short.len(), 2);
    assert_eq!(&long[..2], &short[..]);
    for slot in &long {
        assert!(g.entities.iter().any(|e| e.alive() && e.id == slot.id && e.kind == slot.kind));
        assert!(!slot.releasing);
    }
}

#[test]
fn huge_damage_empties_hit_points() {
    let mage = Entity::new(0, Kind::Mage, 0, 0);
    let imp = Entity::new(1, Kind::Imp, 1, 0);
    let mut g = board(2, 1, vec![mage, imp]);
    let mut ctx = StepCtx::new();
    deal_damage(&mut g, 1, i32::MAX, &mut ctx);
    assert_eq!(g.entities[1].hp, 0);
    assert_eq!(ctx.events[0], Event::Damaged { id: 1, amt: i32::MAX });
}

#[test]
fn igniting_off_the_board_lights_nothing() {
    let mut g = board(3, 1, vec![Entity::new(0, Kind::Mage, 0, 0)]);
    g.tiles[0][1] = Tile::Oil;
    let mut ctx = StepCtx::new();
    ignite_oil(&mut g, i32::MAX, i32::MIN, &mut ctx);
    assert_eq!(g.fire, vec![vec![0, 0, 0]]);
    assert!(ctx.events.is_empty());
}

#[test]
fn brake_test_takes_any_next_cell() {
    let g = board(4, 1, vec![Entity::new(0, Kind::Mage, 0, 0), Entity::new(1, Kind::Imp, 3, 0)]);
    let ctx = StepCtx::new();
    assert!(!walk_brake(&g, Some((1, 0)), &ctx));
    assert!(walk_brake(&g, Some((2, 0)), &ctx));
    assert!(!walk_brake(&g, Some((i32::MIN, i32::MAX)), &ctx));
}

#[test]
fn events_as_page_json() {
    let evs = vec![
        Event::Damaged { id: 1, amt: 3 },
        Event::SpellCast { id: 0, spell: "bolt" },
        Event::Moved { id: 2, from: (1, -1), to: (2, 0) },
    ];
    let text = String::from_utf8(events_json(&evs)).unwrap();
    assert_eq!(
        text,
        "[{\"t\":\"dmg\",\"id\":1,\"amt\":3},{\"t\":\"cast\",\"id\":0,\"s\":\"bolt\"},{\"t\":\"mv\",\"id\":2,\"fx\":1,\"fy\":-1,\"tx\":2,\"ty\":0}]"
    );
    assert_eq!(String::from_utf8(events_json(&Vec::new())).unwrap(), "[]");
}

#[test]
fn step_accepts_clocks_below_zero() {
    let mut g = init_room(0);
    for e in g.entities.iter_mut() {
        e.time -= 100;
    }
    assert!(step_ready(&g));
    let mut run = RunState::new(1);
    let r = step(&mut g, &mut run, Action::Wait);
    assert!(r.rejected.is_none());
}

#[test]
fn played_runs_replay_with_the_same_content() {
    for seed in 0..4u32 {
        let (t, st, sn) = magicraid_sim::determinism::play_and_replay(seed, 300);
        assert_eq!(st, t.outcome);
        assert_eq!(sn.entities, t.final_snapshot.entities);
        assert_eq!(sn.tiles, t.final_snapshot.tiles);
        assert_eq!(sn.fire, t.final_snapshot.fire);
        assert_eq!(sn.potions, t.final_snapshot.potions);
    }
}

#[test]
fn equal_arguments_give_equal_traces() {
    for seed in [0u32, 7, 12345] {
        assert_eq!(trace_json(seed, 60), trace_json(seed, 60));
    }
    assert_ne!(trace_json(1, 60), trace_json(2, 60));
}

#[test]
fn control_returns_with_the_mage_free() {
    for seed in 0..3u32 {
        let mut g = init_room(0);
        let mut run = RunState::new(seed);
        for _ in 0..20 {
            let r = step(&mut g, &mut run, Action::Wait);
            if r.status != Status::AwaitingInput {
                break;
            }
            assert!(g.mage().channel.is_none());
            assert!(g.mage().path.as_ref().map_or(true, |p| p.is_empty()));
        }
    }
}
