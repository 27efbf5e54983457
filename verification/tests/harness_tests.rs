use magicraid_sim::harness::{play, replay, room_count};
use magicraid_sim::Status;

const SEEDS: u32 = 300;
const BUDGET: usize = 5000;

#[test]
fn replay_is_bit_identical_for_all_seeds() {
    for seed in 0..SEEDS {
        let t = play(seed, BUDGET);
        let (status, snap) = replay(seed, &t.ops);
        assert_eq!(status, t.outcome, "seed {seed}: 回放結果不一致");
        assert_eq!(snap, t.final_snapshot, "seed {seed}: 回放最終狀態不 bit 一致");
    }
}

#[test]
fn agent_is_deterministic_run_to_run() {
    for seed in [0u32, 1, 7, 42, 123, 299] {
        let a = play(seed, BUDGET);
        let b = play(seed, BUDGET);
        assert_eq!(a.ops, b.ops, "seed {seed}: 兩次 op 序列不同");
        assert_eq!(a.outcome, b.outcome);
        assert_eq!(a.final_snapshot, b.final_snapshot);
    }
}

#[test]
fn no_crash_no_timeout_across_seeds() {
    for seed in 0..SEEDS {
        let t = play(seed, BUDGET);
        assert!(
            t.steps < BUDGET,
            "seed {seed}: 跑到 budget 上限({BUDGET})疑似卡死"
        );
        assert!(
            matches!(t.outcome, Status::RunComplete | Status::Defeat),
            "seed {seed}: 非終局結束 = {:?}",
            t.outcome
        );
    }
}

#[test]
fn rooms_0_to_2_solvable_every_seed() {
    for seed in 0..SEEDS {
        let t = play(seed, BUDGET);
        assert!(
            t.max_room >= 3,
            "seed {seed}: 只到房 {} — 房 0–2 未必每場可解",
            t.max_room
        );
    }
}

#[test]
fn rooms_3_and_4_are_solvable() {
    let last = room_count() - 1;
    let any_reaches_boss = (0..SEEDS).any(|seed| play(seed, BUDGET).max_room >= last);
    assert!(any_reaches_boss, "沒有任何種子抵達 boss 房 → 房 3/4 可解性未證");
}

#[test]
fn boss_room_is_reached_known_gap() {
    let last = room_count() - 1;
    let reached: u32 = (0..SEEDS)
        .filter(|&s| play(s, BUDGET).max_room >= last)
        .count() as u32;
    let cleared: u32 = (0..SEEDS)
        .filter(|&s| play(s, BUDGET).outcome == Status::RunComplete)
        .count() as u32;
    assert!(reached > 0, "應有種子抵達 boss 房");
    println!("boss 房:抵達 {reached} 場,baseline 通關 {cleared} 場(已知缺口)");
}
