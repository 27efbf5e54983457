use magicraid_sim::config::{SPEED_HALVES_BASE, SPEED_HALVES_HASTE};
use magicraid_sim::state::{Entity, GameState, Kind, Tile};
use magicraid_sim::time_chain::{advance_time, next_actor_index};

fn two_actor_state(mage_speed: u8) -> GameState {
    let mut mage = Entity::new(0, Kind::Mage, 0, 0);
    mage.speed_halves = mage_speed;
    let imp = Entity::new(1, Kind::Imp, 1, 0);
    GameState {
        w: 2,
        h: 1,
        tiles: vec![vec![Tile::Floor, Tile::Floor]],
        fire: vec![vec![0, 0]],
        burn_t: vec![vec![0, 0]],
        entities: vec![mage, imp],
        room_idx: 0,
        core: None,
    }
}

fn run_chain(g: &mut GameState, n: usize) -> String {
    let mut seq = String::new();
    for _ in 0..n {
        let i = next_actor_index(g).expect("應永遠有存活者");
        seq.push(if g.entities[i].kind.is_mage() { 'M' } else { 'E' });
        advance_time(&mut g.entities[i]);
    }
    seq
}

#[test]
fn equal_speed_alternates() {
    let mut g = two_actor_state(SPEED_HALVES_BASE);
    assert_eq!(run_chain(&mut g, 8), "MEMEMEME");
}

#[test]
fn haste_inserts_extra_turn() {
    let mut g = two_actor_state(SPEED_HALVES_HASTE);
    assert_eq!(run_chain(&mut g, 10), "MEMEMMEMEM");
}

#[test]
fn tiebreak_mage_first() {
    let g = two_actor_state(SPEED_HALVES_BASE);
    let i = next_actor_index(&g).unwrap();
    assert!(g.entities[i].kind.is_mage());
}

#[test]
fn replay_is_bit_identical() {
    let mut a = two_actor_state(SPEED_HALVES_HASTE);
    let mut b = two_actor_state(SPEED_HALVES_HASTE);
    run_chain(&mut a, 200);
    run_chain(&mut b, 200);
    let ta: Vec<i64> = a.entities.iter().map(|e| e.time).collect();
    let tb: Vec<i64> = b.entities.iter().map(|e| e.time).collect();
    assert_eq!(ta, tb, "兩次跑的時間值必須 bit 級相同");
}

#[test]
fn time_is_always_integer_multiple_of_step() {
    let mut g = two_actor_state(SPEED_HALVES_HASTE);
    run_chain(&mut g, 99);
    let mage_time = g.entities.iter().find(|e| e.kind.is_mage()).unwrap().time;
    assert_eq!(mage_time % 4, 0, "法師時間值應為 step=4 的整數倍");
}
