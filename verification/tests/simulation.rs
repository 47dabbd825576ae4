use plinko::board::create_pyramid;
use plinko::history::MultiplierHistory;
use plinko::shake::{SHAKE_DURATION_MS, SHAKE_INTENSITY_MILLI};
use plinko::sim::{
    CollisionEvent, Plinko, GRANT_BALANCE, HISTORY_CAPACITY, SPAWN_JITTER, STARTING_BALANCE,
};

fn started(a: u64, b: u64) -> CollisionEvent {
    CollisionEvent { started: true, first: a, second: b }
}

fn ended(a: u64, b: u64) -> CollisionEvent {
    CollisionEvent { started: false, first: a, second: b }
}

#[test]
fn history_keeps_newest_first_and_evicts_oldest() {
    let mut h = MultiplierHistory::new(3);
    assert_eq!(h.len(), 0);
    h.push(1);
    h.push(2);
    h.push(3);
    assert_eq!(h.len(), 3);
    assert_eq!((h.get(0), h.get(1), h.get(2)), (3, 2, 1));
    h.push(4);
    assert_eq!(h.len(), 3);
    assert_eq!((h.get(0), h.get(1), h.get(2)), (4, 3, 2));
}

#[test]
fn history_bound_after_long_run() {
    // Push 12 values into a capacity-9 history: length pins at 9 and the
    // contents are the last 9 values, newest first.
    let mut h = MultiplierHistory::new(HISTORY_CAPACITY);
    for v in 1..=12u32 {
        h.push(v);
    }
    assert_eq!(h.len(), 9);
    assert_eq!(h.capacity(), 9);
    for i in 0..9usize {
        assert_eq!(h.get(i), 12 - i as u32);
    }
}

#[test]
fn successful_spawn_charges_cost_and_registers_ball() {
    // Starting balance 1000, spawn cost 100: one successful spawn leaves 900
    // and one unscored ball near the drop position.
    let mut sim = Plinko::new(STARTING_BALANCE, HISTORY_CAPACITY);
    let id = sim.try_spawn(100, SPAWN_JITTER).expect("spawn is affordable");
    assert_eq!(sim.balance(), 900);
    assert_eq!(sim.ball_count(), 1);
    let b = sim.ball_at(0);
    assert_eq!(b.id, id);
    assert!(!b.has_scored);
    assert!(-10 <= b.x && b.x <= 10);
    assert_eq!(b.y, 250);
    assert_eq!((b.vx, b.vy, b.spin), (0, 0, 0));
    assert!(!sim.shake_active());
}

#[test]
fn one_time_payout_scenario() {
    // A ball hitting a power-49 zone pays 100 * 49 once; a second collision
    // of the same ball changes nothing.
    let mut sim = Plinko::new(1000, 9);
    let zone = sim.add_zone(49);
    let other_zone = sim.add_zone(7);
    let ball = sim.spawn_with_jitter(100, 3).expect("affordable");
    assert_eq!(sim.balance(), 900);
    sim.process_collision(started(ball, zone));
    assert_eq!(sim.balance(), 900 + 100 * 49);
    assert!(sim.ball_at(0).has_scored);
    assert_eq!(sim.history().len(), 1);
    assert_eq!(sim.history().get(0), 49);
    // Same ball, same zone again.
    sim.process_collision(started(ball, zone));
    assert_eq!(sim.balance(), 5800);
    // Same ball, a different zone, and in the reversed order.
    sim.process_collision(started(other_zone, ball));
    assert_eq!(sim.balance(), 5800);
    assert_eq!(sim.history().len(), 1);
}

#[test]
fn scoring_works_in_either_event_order() {
    let mut sim = Plinko::new(1000, 9);
    let zone = sim.add_zone(5);
    let ball = sim.spawn_with_jitter(100, 0).expect("affordable");
    // Zone first, ball second.
    sim.process_collision(started(zone, ball));
    assert_eq!(sim.balance(), 900 + 500);
    assert!(sim.ball_at(0).has_scored);
}

#[test]
fn non_scoring_pairs_are_ignored() {
    let mut sim = Plinko::new(1000, 9);
    let zone_a = sim.add_zone(5);
    let zone_b = sim.add_zone(6);
    let ball_a = sim.spawn_with_jitter(100, 0).expect("affordable");
    let ball_b = sim.spawn_with_jitter(100, 0).expect("affordable");
    // Ball/ball, zone/zone, unknown handles, and end events all change nothing.
    sim.process_collision(started(ball_a, ball_b));
    sim.process_collision(started(zone_a, zone_b));
    sim.process_collision(started(999, 998));
    sim.process_collision(ended(ball_a, zone_a));
    assert_eq!(sim.balance(), 800);
    assert!(!sim.ball_at(0).has_scored);
    assert!(!sim.ball_at(1).has_scored);
    assert_eq!(sim.history().len(), 0);
}

#[test]
fn multiplier_system_drains_events_in_order() {
    let mut sim = Plinko::new(1000, 9);
    let z1 = sim.add_zone(2);
    let z2 = sim.add_zone(3);
    let b1 = sim.spawn_with_jitter(100, 0).expect("affordable");
    let b2 = sim.spawn_with_jitter(100, 0).expect("affordable");
    let events = vec![
        started(b1, z1),
        started(b1, z2), // b1 already scored: ignored
        started(z2, b2),
        ended(b2, z1),
    ];
    sim.multiplier_system(&events);
    assert_eq!(sim.balance(), 800 + 200 + 300);
    // History newest first: b2's zone power 3 in front of b1's 2.
    assert_eq!(sim.history().len(), 2);
    assert_eq!(sim.history().get(0), 3);
    assert_eq!(sim.history().get(1), 2);
}

#[test]
fn refused_spawn_keeps_balance_and_triggers_shake() {
    // Balance 50, cost 100: the spawn is refused, the balance stays, and a
    // fresh feedback effect with the full duration remaining activates.
    let mut sim = Plinko::new(50, 9);
    assert!(sim.try_spawn(100, SPAWN_JITTER).is_none());
    assert_eq!(sim.balance(), 50);
    assert_eq!(sim.ball_count(), 0);
    let shake = sim.shake_state().expect("shake active after refusal");
    assert_eq!(shake.remaining_ms, SHAKE_DURATION_MS);
    assert_eq!(shake.duration_ms, SHAKE_DURATION_MS);
    assert_eq!(shake.intensity_milli, SHAKE_INTENSITY_MILLI);
}

#[test]
fn shake_decays_and_expires_to_exact_zero() {
    let mut sim = Plinko::new(0, 9);
    assert!(sim.try_spawn(100, SPAWN_JITTER).is_none());
    // Half the duration gone: amount decays to half the peak intensity.
    sim.screen_shake_system(100);
    let shake = sim.shake_state().expect("still active");
    assert_eq!(shake.remaining_ms, 100);
    let amount = (SHAKE_INTENSITY_MILLI / 2) as i64;
    let (ox, oy) = sim.offset();
    assert!(-amount <= ox && ox <= amount);
    assert!(-amount <= oy && oy <= amount);
    // The rest of the duration elapses: the effect is removed and the offset
    // snaps to exactly zero.
    sim.screen_shake_system(100);
    assert!(!sim.shake_active());
    assert_eq!(sim.offset(), (0, 0));
}

#[test]
fn retrigger_restarts_the_shake() {
    let mut sim = Plinko::new(0, 9);
    assert!(sim.try_spawn(100, SPAWN_JITTER).is_none());
    sim.screen_shake_system(150);
    assert_eq!(sim.shake_state().unwrap().remaining_ms, 50);
    // A second refused spawn replaces the effect with a fresh one.
    assert!(sim.try_spawn(100, SPAWN_JITTER).is_none());
    assert_eq!(sim.shake_state().unwrap().remaining_ms, SHAKE_DURATION_MS);
}

#[test]
fn gravity_override_lowers_vy_and_zeroes_spin() {
    let mut sim = Plinko::new(1000, 9);
    let id = sim.spawn_with_jitter(100, 0).expect("affordable");
    assert!(sim.set_ball_state(id, 5, 100, 7, 40, 9));
    sim.modify_body_velocity();
    let b = sim.ball_at(0);
    assert_eq!(b.vy, 40 - 25);
    assert_eq!(b.spin, 0);
    assert_eq!((b.x, b.y, b.vx), (5, 100, 7));
    // Another tick lowers it again.
    sim.modify_body_velocity();
    assert_eq!(sim.ball_at(0).vy, -10);
}

#[test]
fn prune_removes_balls_at_or_below_the_floor() {
    let mut sim = Plinko::new(1000, 9);
    let a = sim.spawn_with_jitter(100, 0).expect("affordable");
    let b = sim.spawn_with_jitter(100, 0).expect("affordable");
    let c = sim.spawn_with_jitter(100, 0).expect("affordable");
    assert!(sim.set_ball_state(a, 0, -600, 0, 0, 0));
    assert!(sim.set_ball_state(b, 0, -500, 0, 0, 0));
    assert!(sim.set_ball_state(c, 0, -499, 0, 0, 0));
    sim.prune_fallen(-500);
    // a (below) and b (at the floor) are destroyed; c survives.
    assert_eq!(sim.ball_count(), 1);
    assert_eq!(sim.ball_at(0).id, c);
}

#[test]
fn pruned_ball_generates_no_further_scoring() {
    let mut sim = Plinko::new(1000, 9);
    let zone = sim.add_zone(10);
    let ball = sim.spawn_with_jitter(100, 0).expect("affordable");
    assert!(sim.set_ball_state(ball, 0, -700, 0, 0, 0));
    sim.prune_fallen(-500);
    assert_eq!(sim.ball_count(), 0);
    let balance_before = sim.balance();
    sim.process_collision(started(ball, zone));
    sim.process_collision(started(zone, ball));
    assert_eq!(sim.balance(), balance_before);
    assert_eq!(sim.history().len(), 0);
}

#[test]
fn grant_funds_resets_the_balance() {
    let mut sim = Plinko::new(7, 9);
    sim.grant_funds();
    assert_eq!(sim.balance(), GRANT_BALANCE);
    assert_eq!(sim.balance(), 3000);
}

#[test]
fn install_board_registers_all_zones() {
    let mut sim = Plinko::new(1000, 9);
    let board = create_pyramid();
    sim.install_board(&board);
    assert_eq!(sim.zone_count(), 17);
    for i in 0..17usize {
        let z = sim.zone_at(i);
        assert_eq!(z.power, board.zones[i].power);
        assert_eq!(z.id, i as u64);
    }
    // A ball landing in an edge zone pays 100 * 31.
    let ball = sim.spawn_with_jitter(100, 0).expect("affordable");
    let edge = sim.zone_at(0);
    sim.process_collision(started(ball, edge.id));
    assert_eq!(sim.balance(), 900 + 3100);
}

#[test]
fn spawn_every_frame_while_affordable() {
    // The reference behavior allows a spawn on every frame the input is held:
    // ten frames at cost 100 from balance 1000 drain it to zero, the eleventh
    // is refused.
    let mut sim = Plinko::new(1000, 9);
    for _ in 0..10 {
        assert!(sim.try_spawn(100, SPAWN_JITTER).is_some());
    }
    assert_eq!(sim.balance(), 0);
    assert_eq!(sim.ball_count(), 10);
    assert!(sim.try_spawn(100, SPAWN_JITTER).is_none());
    assert_eq!(sim.ball_count(), 10);
    assert!(sim.shake_active());
}
