//! The simulation context: economy balance, registry of live balls, the
//! installed multiplier zones, the bounded multiplier history, and the
//! screen-shake feedback state. One logical frame drives it through the
//! gravity override, the external solver's write-back, pruning, collision
//! scoring and effect decay. All entities carry opaque integer handles drawn
//! from one counter, so a handle is never reused.

use crate::history::{pushed, MultiplierHistory};
use crate::rng::{gen_range_inclusive, thread_rng_handle};
use crate::shake::ScreenShake;
use vstd::prelude::*;

verus! {

/// Currency paid out per unit of zone power.
pub const PAYOUT_BASE: u64 = 100;

/// Fixed drop position of a freshly spawned ball.
pub const SPAWN_X: i64 = 0;

/// Vertical drop position of a freshly spawned ball.
pub const SPAWN_Y: i64 = 250;

/// A spawn is jittered horizontally by a uniform draw in this symmetric range.
pub const SPAWN_JITTER: i64 = 10;

/// Vertical threshold at or below which a ball is destroyed.
pub const FLOOR_Y: i64 = -500;

/// Constant per-tick decrement of a ball's vertical velocity.
pub const FALL_RATE: i64 = 25;

/// Balance a player starts with.
pub const STARTING_BALANCE: u64 = 1000;

/// Cost of spawning one ball.
pub const SPAWN_COST: u64 = 100;

/// Balance set by the debug grant affordance.
pub const GRANT_BALANCE: u64 = 3000;

/// Capacity of the multiplier history.
pub const HISTORY_CAPACITY: usize = 9;

/// Largest single payout: `PAYOUT_BASE` times the largest `u32` power.
pub const MAX_PAYOUT: u64 = 429496729500;

/// Largest balance from which one payout can never overflow `u64`.
pub const MAX_SAFE_BALANCE: u64 = 18446744073709551615 - 429496729500;

/// One falling projectile: its opaque handle, the one-shot payout guard, and
/// the kinematic state mirrored from the external solver.
#[derive(PartialEq, Eq, Structural, Clone, Copy)]
pub struct Ball {
    pub id: u64,
    pub has_scored: bool,
    pub x: i64,
    pub y: i64,
    pub vx: i64,
    pub vy: i64,
    pub spin: i64,
}

/// A registered multiplier zone: its opaque handle and payout power.
#[derive(PartialEq, Eq, Structural, Clone, Copy)]
pub struct Zone {
    pub id: u64,
    pub power: u32,
}

/// A collision record reported by the external solver; only `Started` events
/// can score.
#[derive(PartialEq, Eq, Structural, Clone, Copy)]
pub struct CollisionEvent {
    pub started: bool,
    pub first: u64,
    pub second: u64,
}

/// Mathematical model of the whole simulation state.
pub struct SimModel {
    pub balls: Seq<Ball>,
    pub zones: Seq<Zone>,
    pub balance: int,
    pub history: Seq<u32>,
    pub cap: nat,
    pub shake: Option<ScreenShake>,
    pub offset_x: int,
    pub offset_y: int,
    pub next_id: u64,
}

/// Well-formedness of the model: handles are pairwise distinct, below the
/// allocation counter, and ball handles never collide with zone handles; the
/// history respects its capacity and a live shake is well-formed.
pub open spec fn wf_model(m: SimModel) -> bool {
    &&& forall|i: int, j: int|
        0 <= i < j < m.balls.len() ==> (#[trigger] m.balls[i].id) != (#[trigger] m.balls[j].id)
    &&& forall|i: int, j: int|
        0 <= i < j < m.zones.len() ==> (#[trigger] m.zones[i].id) != (#[trigger] m.zones[j].id)
    &&& forall|i: int, j: int|
        0 <= i < m.balls.len() && 0 <= j < m.zones.len() ==> #[trigger] m.balls[i].id
            != #[trigger] m.zones[j].id
    &&& forall|i: int| 0 <= i < m.balls.len() ==> (#[trigger] m.balls[i].id) < m.next_id
    &&& forall|i: int| 0 <= i < m.zones.len() ==> (#[trigger] m.zones[i].id) < m.next_id
    &&& m.cap >= 1
    &&& m.history.len() <= m.cap
    &&& (m.shake matches Some(s) ==> s.wf())
}

/// Some live ball carries this handle.
pub open spec fn has_ball(m: SimModel, id: u64) -> bool {
    exists|i: int| 0 <= i < m.balls.len() && (#[trigger] m.balls[i].id) == id
}

/// Index of the live ball carrying this handle (unique under `wf_model`).
pub open spec fn ball_index(m: SimModel, id: u64) -> int {
    choose|i: int| 0 <= i < m.balls.len() && (#[trigger] m.balls[i].id) == id
}

/// Some zone carries this handle.
pub open spec fn has_zone(m: SimModel, id: u64) -> bool {
    exists|i: int| 0 <= i < m.zones.len() && (#[trigger] m.zones[i].id) == id
}

/// Index of the zone carrying this handle (unique under `wf_model`).
pub open spec fn zone_index(m: SimModel, id: u64) -> int {
    choose|i: int| 0 <= i < m.zones.len() && (#[trigger] m.zones[i].id) == id
}

/// Under `wf_model`, an index whose ball carries the handle is the index the
/// model lookup denotes.
pub proof fn lemma_ball_index_agrees(m: SimModel, id: u64, i: int)
    requires
        wf_model(m),
        0 <= i < m.balls.len(),
        m.balls[i].id == id,
    ensures
        has_ball(m, id),
        ball_index(m, id) == i,
{
    assert(has_ball(m, id));
    let j = ball_index(m, id);
    if i < j {
        assert(m.balls[i].id != m.balls[j].id);
    } else if j < i {
        assert(m.balls[j].id != m.balls[i].id);
    }
}

/// Under `wf_model`, an index whose zone carries the handle is the index the
/// model lookup denotes.
pub proof fn lemma_zone_index_agrees(m: SimModel, id: u64, i: int)
    requires
        wf_model(m),
        0 <= i < m.zones.len(),
        m.zones[i].id == id,
    ensures
        has_zone(m, id),
        zone_index(m, id) == i,
{
    assert(has_zone(m, id));
    let j = zone_index(m, id);
    if i < j {
        assert(m.zones[i].id != m.zones[j].id);
    } else if j < i {
        assert(m.zones[j].id != m.zones[i].id);
    }
}

/// The whole simulation state a host drives tick by tick.
pub struct Plinko {
    balls: Vec<Ball>,
    zones: Vec<Zone>,
    balance: u64,
    history: MultiplierHistory,
    shake: Option<ScreenShake>,
    offset_x: i64,
    offset_y: i64,
    next_id: u64,
}

impl View for Plinko {
    type V = SimModel;

    closed spec fn view(&self) -> SimModel {
        SimModel {
            balls: self.balls@,
            zones: self.zones@,
            balance: self.balance as int,
            history: self.history@,
            cap: self.history.cap(),
            shake: self.shake,
            offset_x: self.offset_x as int,
            offset_y: self.offset_y as int,
            next_id: self.next_id,
        }
    }
}

impl Plinko {
    pub open spec fn wf(&self) -> bool {
        wf_model(self@)
    }

    /// Fresh simulation: no balls, no zones, an empty history, no shake, the
    /// camera at rest, and the given starting balance.
    pub fn new(starting_balance: u64, history_capacity: usize) -> (sim: Plinko)
        requires
            history_capacity >= 1,
        ensures
            sim.wf(),
            sim@.balls == Seq::<Ball>::empty(),
            sim@.zones == Seq::<Zone>::empty(),
            sim@.balance == starting_balance,
            sim@.history == Seq::<u32>::empty(),
            sim@.cap == history_capacity,
            sim@.shake is None,
            sim@.offset_x == 0,
            sim@.offset_y == 0,
            sim@.next_id == 0,
    {
        Plinko {
            balls: Vec::new(),
            zones: Vec::new(),
            balance: starting_balance,
            history: MultiplierHistory::new(history_capacity),
            shake: None,
            offset_x: 0,
            offset_y: 0,
            next_id: 0,
        }
    }

    pub fn balance(&self) -> (b: u64)
        ensures
            b == self@.balance,
    {
        self.balance
    }

    pub fn ball_count(&self) -> (n: usize)
        ensures
            n == self@.balls.len(),
    {
        self.balls.len()
    }

    pub fn ball_at(&self, i: usize) -> (b: Ball)
        requires
            i < self@.balls.len(),
        ensures
            b == self@.balls[i as int],
    {
        self.balls[i]
    }

    pub fn zone_count(&self) -> (n: usize)
        ensures
            n == self@.zones.len(),
    {
        self.zones.len()
    }

    pub fn zone_at(&self, i: usize) -> (z: Zone)
        requires
            i < self@.zones.len(),
        ensures
            z == self@.zones[i as int],
    {
        self.zones[i]
    }

    /// Read-only view of the multiplier history, newest first.
    pub fn history(&self) -> (h: &MultiplierHistory)
        ensures
            h@ == self@.history,
            h.cap() == self@.cap,
    {
        &self.history
    }

    /// Current camera shake offset, in thousandths of a world unit.
    pub fn offset(&self) -> (o: (i64, i64))
        ensures
            o.0 == self@.offset_x,
            o.1 == self@.offset_y,
    {
        (self.offset_x, self.offset_y)
    }

    pub fn shake_active(&self) -> (b: bool)
        ensures
            b == (self@.shake is Some),
    {
        self.shake.is_some()
    }

    /// Next handle the allocator will hand out; handles are never reused.
    pub fn next_id(&self) -> (n: u64)
        ensures
            n == self@.next_id,
    {
        self.next_id
    }

    pub fn shake_state(&self) -> (s: Option<ScreenShake>)
        ensures
            s == self@.shake,
    {
        self.shake
    }

    /// Find the index of the live ball carrying `id`.
    pub fn find_ball(&self, id: u64) -> (r: Option<usize>)
        requires
            self.wf(),
        ensures
            match r {
                Some(i) => has_ball(self@, id) && ball_index(self@, id) == i
                    && i < self@.balls.len(),
                None => !has_ball(self@, id),
            },
    {
        let n = self.balls.len();
        let mut i: usize = 0;
        while i < n
            invariant
                self.wf(),
                n == self@.balls.len(),
                i <= n,
                forall|k: int| 0 <= k < i ==> (#[trigger] self@.balls[k].id) != id,
            decreases n - i,
        {
            if self.balls[i].id == id {
                proof {
                    lemma_ball_index_agrees(self@, id, i as int);
                }
                return Some(i);
            }
            i += 1;
        }
        None
    }

    /// Find the index of the zone carrying `id`.
    pub fn find_zone(&self, id: u64) -> (r: Option<usize>)
        requires
            self.wf(),
        ensures
            match r {
                Some(i) => has_zone(self@, id) && zone_index(self@, id) == i
                    && i < self@.zones.len(),
                None => !has_zone(self@, id),
            },
    {
        let n = self.zones.len();
        let mut i: usize = 0;
        while i < n
            invariant
                self.wf(),
                n == self@.zones.len(),
                i <= n,
                forall|k: int| 0 <= k < i ==> (#[trigger] self@.zones[k].id) != id,
            decreases n - i,
        {
            if self.zones[i].id == id {
                proof {
                    lemma_zone_index_agrees(self@, id, i as int);
                }
                return Some(i);
            }
            i += 1;
        }
        None
    }

    /// Register one multiplier zone under a fresh handle.
    pub fn add_zone(&mut self, power: u32) -> (id: u64)
        requires
            old(self).wf(),
            old(self)@.next_id < u64::MAX,
        ensures
            final(self).wf(),
            id == old(self)@.next_id,
            final(self)@ == (SimModel {
                zones: old(self)@.zones.push(Zone { id, power }),
                next_id: (old(self)@.next_id + 1) as u64,
                ..old(self)@
            }),
    {
        let id = self.next_id;
        self.zones.push(Zone { id, power });
        self.next_id = self.next_id + 1;
        id
    }

    /// Install a generated board's zones, one fresh handle per zone, in
    /// left-to-right order. Pegs matter only to the external solver and carry
    /// no registered state.
    pub fn install_board(&mut self, board: &crate::board::Board)
        requires
            old(self).wf(),
            old(self)@.next_id + board.zones@.len() <= u64::MAX,
        ensures
            final(self).wf(),
            final(self)@.zones.len() == old(self)@.zones.len() + board.zones@.len(),
            forall|k: int|
                0 <= k < old(self)@.zones.len() ==> final(self)@.zones[k] == old(self)@.zones[k],
            forall|k: int|
                0 <= k < board.zones@.len() ==> final(self)@.zones[old(self)@.zones.len() + k]
                    == (Zone {
                    id: (old(self)@.next_id + k) as u64,
                    power: board.zones@[k].power,
                }),
            final(self)@.next_id == old(self)@.next_id + board.zones@.len(),
            final(self)@ == (SimModel {
                zones: final(self)@.zones,
                next_id: final(self)@.next_id,
                ..old(self)@
            }),
    {
        let n = board.zones.len();
        let mut k: usize = 0;
        while k < n
            invariant
                self.wf(),
                n == board.zones@.len(),
                k <= n,
                old(self)@.next_id + n <= u64::MAX,
                self@.next_id == old(self)@.next_id + k,
                self@.zones.len() == old(self)@.zones.len() + k,
                forall|j: int|
                    0 <= j < old(self)@.zones.len() ==> self@.zones[j] == old(self)@.zones[j],
                forall|j: int|
                    0 <= j < k ==> self@.zones[old(self)@.zones.len() + j] == (Zone {
                        id: (old(self)@.next_id + j) as u64,
                        power: board.zones@[j].power,
                    }),
                self@ == (SimModel { zones: self@.zones, next_id: self@.next_id, ..old(self)@ }),
            decreases n - k,
        {
            self.add_zone(board.zones[k].power);
            k += 1;
        }
    }

    /// Debug affordance: unconditionally reset the balance to the fixed grant
    /// amount, bypassing the economy. Not part of the production economy.
    pub fn grant_funds(&mut self)
        requires
            old(self).wf(),
        ensures
            final(self).wf(),
            final(self)@ == (SimModel { balance: GRANT_BALANCE as int, ..old(self)@ }),
    {
        self.balance = GRANT_BALANCE;
    }

    /// Attach a fresh screen-shake effect; re-triggering while one is active
    /// simply restarts it.
    pub fn trigger_shake(&mut self)
        requires
            old(self).wf(),
        ensures
            final(self).wf(),
            final(self)@ == (SimModel { shake: Some(ScreenShake::fresh_spec()), ..old(self)@ }),
    {
        self.shake = Some(ScreenShake::fresh());
    }

    /// Spawn one ball for `cost` at the fixed drop position shifted by
    /// `jitter`, if the balance affords it; otherwise refuse and trigger the
    /// feedback effect. The balance is never driven below zero.
    pub fn spawn_with_jitter(&mut self, cost: u64, jitter: i64) -> (r: Option<u64>)
        requires
            old(self).wf(),
            old(self)@.next_id < u64::MAX,
            SPAWN_X + jitter <= i64::MAX,
            SPAWN_X + jitter >= i64::MIN,
        ensures
            final(self).wf(),
            r is Some <==> old(self)@.balance >= cost,
            old(self)@.balance >= cost ==> r == Some(old(self)@.next_id) && final(self)@
                == spawn_ok_model(old(self)@, cost, jitter),
            old(self)@.balance < cost ==> final(self)@ == spawn_refused_model(old(self)@),
    {
        if self.balance >= cost {
            let id = self.next_id;
            self.balance = self.balance - cost;
            self.balls.push(
                Ball {
                    id,
                    has_scored: false,
                    x: SPAWN_X + jitter,
                    y: SPAWN_Y,
                    vx: 0,
                    vy: 0,
                    spin: 0,
                },
            );
            self.next_id = self.next_id + 1;
            Some(id)
        } else {
            self.trigger_shake();
            None
        }
    }

    /// Player spawn action: affordable spawns cost `cost` and drop a ball
    /// whose horizontal position is jittered by a uniform random draw within
    /// `[-jitter_range, jitter_range]`; unaffordable attempts leave the
    /// economy and the registry untouched and trigger the feedback effect.
    pub fn try_spawn(&mut self, cost: u64, jitter_range: i64) -> (r: Option<u64>)
        requires
            old(self).wf(),
            old(self)@.next_id < u64::MAX,
            0 <= jitter_range,
        ensures
            final(self).wf(),
            r is Some <==> old(self)@.balance >= cost,
            old(self)@.balance >= cost ==> r == Some(old(self)@.next_id) && (exists|j: i64|
                -jitter_range <= j <= jitter_range && final(self)@ == spawn_ok_model(
                    old(self)@,
                    cost,
                    j,
                )),
            old(self)@.balance < cost ==> final(self)@ == spawn_refused_model(old(self)@),
    {
        if self.balance >= cost {
            let mut rng = thread_rng_handle();
            let j = gen_range_inclusive(&mut rng, -jitter_range, jitter_range);
            let r = self.spawn_with_jitter(cost, j);
            proof {
                assert(-jitter_range <= j <= jitter_range && self@ == spawn_ok_model(
                    old(self)@,
                    cost,
                    j,
                ));
            }
            r
        } else {
            self.spawn_with_jitter(cost, 0)
        }
    }
}

/// The ball freshly spawned under handle `id`, `jitter` to the side of the
/// drop position, at rest and unscored.
pub open spec fn new_ball(id: u64, jitter: i64) -> Ball {
    Ball {
        id,
        has_scored: false,
        x: (SPAWN_X + jitter) as i64,
        y: SPAWN_Y,
        vx: 0,
        vy: 0,
        spin: 0,
    }
}

/// An affordable spawn: the cost leaves the balance, the new ball joins the
/// registry under the next handle, and nothing else moves.
pub open spec fn spawn_ok_model(m: SimModel, cost: u64, jitter: i64) -> SimModel {
    SimModel {
        balls: m.balls.push(new_ball(m.next_id, jitter)),
        balance: m.balance - cost,
        next_id: (m.next_id + 1) as u64,
        ..m
    }
}

/// A refused spawn: everything stays as it was, except that a fresh feedback
/// effect replaces any current one.
pub open spec fn spawn_refused_model(m: SimModel) -> SimModel {
    SimModel { shake: Some(ScreenShake::fresh_spec()), ..m }
}

/// The ball after its one-time payout: only the one-shot guard flips.
pub open spec fn scored_ball(b: Ball) -> Ball {
    Ball { has_scored: true, ..b }
}

/// One more payout can never overflow the balance from here.
pub open spec fn payout_headroom(m: SimModel) -> bool {
    m.balance <= MAX_SAFE_BALANCE
}

/// One payout: ball `bi` scores against zone `zi`. The guard flips, the
/// balance grows by the payout base times the zone's power, and the power is
/// recorded at the front of the history.
pub open spec fn pay_model(m: SimModel, bi: int, zi: int) -> SimModel {
    SimModel {
        balls: m.balls.update(bi, scored_ball(m.balls[bi])),
        balance: m.balance + (PAYOUT_BASE as int) * (m.zones[zi].power as int),
        history: pushed(m.history, m.zones[zi].power, m.cap),
        ..m
    }
}

/// What one collision event does to the state: a start event between an
/// unscored ball and a zone (in either order) pays out once; every other
/// event — end events, ball/ball or zone/zone pairs, events naming unknown
/// handles, and any event whose ball has already scored — changes nothing.
pub open spec fn score_step(m: SimModel, e: CollisionEvent) -> SimModel {
    if !e.started {
        m
    } else if has_ball(m, e.first) {
        if has_zone(m, e.second) && !m.balls[ball_index(m, e.first)].has_scored {
            pay_model(m, ball_index(m, e.first), zone_index(m, e.second))
        } else {
            m
        }
    } else if has_ball(m, e.second) && has_zone(m, e.first) {
        if !m.balls[ball_index(m, e.second)].has_scored {
            pay_model(m, ball_index(m, e.second), zone_index(m, e.first))
        } else {
            m
        }
    } else {
        m
    }
}

/// The state after draining a whole sequence of collision events in order.
pub open spec fn score_steps(m: SimModel, evs: Seq<CollisionEvent>) -> SimModel
    decreases evs.len(),
{
    if evs.len() == 0 {
        m
    } else {
        score_steps(score_step(m, evs[0]), evs.skip(1))
    }
}

/// One event keeps the state well-formed, moves no handle, removes no ball,
/// and raises the balance by at most one maximal payout.
pub proof fn lemma_score_step_wf(m: SimModel, e: CollisionEvent)
    requires
        wf_model(m),
    ensures
        wf_model(score_step(m, e)),
        score_step(m, e).balls.len() == m.balls.len(),
        forall|i: int|
            0 <= i < m.balls.len() ==> (#[trigger] score_step(m, e).balls[i].id) == m.balls[i].id,
        score_step(m, e).zones == m.zones,
        score_step(m, e).next_id == m.next_id,
        m.balance <= score_step(m, e).balance <= m.balance + MAX_PAYOUT,
{
    let m1 = score_step(m, e);
    if m1 != m {
        assert forall|i: int| 0 <= i < m1.balls.len() implies (#[trigger] m1.balls[i].id)
            == m.balls[i].id by {}
    }
}

/// Draining a sequence and then one more event is draining the sequence with
/// that event appended.
pub proof fn lemma_score_steps_push(m: SimModel, evs: Seq<CollisionEvent>, e: CollisionEvent)
    ensures
        score_steps(m, evs.push(e)) == score_step(score_steps(m, evs), e),
    decreases evs.len(),
{
    if evs.len() == 0 {
        assert(evs.push(e)[0] == e);
        assert(evs.push(e).skip(1) =~= Seq::<CollisionEvent>::empty());
        assert(score_steps(m, evs.push(e)) == score_steps(
            score_step(m, e),
            Seq::<CollisionEvent>::empty(),
        ));
        assert(score_steps(score_step(m, e), Seq::<CollisionEvent>::empty()) == score_step(m, e));
        assert(score_steps(m, evs) == m);
    } else {
        assert(evs.push(e)[0] == evs[0]);
        assert(evs.push(e).skip(1) =~= evs.skip(1).push(e));
        assert(score_steps(m, evs.push(e)) == score_steps(
            score_step(m, evs[0]),
            evs.skip(1).push(e),
        ));
        lemma_score_steps_push(score_step(m, evs[0]), evs.skip(1), e);
        assert(score_steps(m, evs) == score_steps(score_step(m, evs[0]), evs.skip(1)));
    }
}

impl Plinko {
    /// Apply the one-time payout of ball `bi` against zone `zi`, unless the
    /// ball's guard is already set.
    fn score_at(&mut self, bi: usize, zi: usize)
        requires
            old(self).wf(),
            bi < old(self)@.balls.len(),
            zi < old(self)@.zones.len(),
            payout_headroom(old(self)@),
        ensures
            final(self).wf(),
            old(self)@.balls[bi as int].has_scored ==> final(self)@ == old(self)@,
            !old(self)@.balls[bi as int].has_scored ==> final(self)@ == pay_model(
                old(self)@,
                bi as int,
                zi as int,
            ),
    {
        if !self.balls[bi].has_scored {
            let p = self.zones[zi].power;
            let mut b = self.balls[bi];
            b.has_scored = true;
            self.balls.set(bi, b);
            proof {
                assert(p as u64 <= 4294967295);
            }
            self.balance = self.balance + PAYOUT_BASE * (p as u64);
            self.history.push(p);
            proof {
                assert forall|i: int| 0 <= i < self@.balls.len() implies (
                #[trigger] self@.balls[i].id) == old(self)@.balls[i].id by {}
            }
        }
    }

    /// Scoring engine, one event: a collision-start between an unscored ball
    /// and a zone — in either order — pays out exactly once; everything else
    /// is ignored, including events naming despawned handles.
    pub fn process_collision(&mut self, ev: CollisionEvent)
        requires
            old(self).wf(),
            payout_headroom(old(self)@),
        ensures
            final(self).wf(),
            final(self)@ == score_step(old(self)@, ev),
    {
        if !ev.started {
            return ;
        }
        match self.find_ball(ev.first) {
            Some(bi) => {
                match self.find_zone(ev.second) {
                    Some(zi) => {
                        self.score_at(bi, zi);
                    },
                    None => {},
                }
            },
            None => {
                match self.find_ball(ev.second) {
                    Some(bi) => {
                        match self.find_zone(ev.first) {
                            Some(zi) => {
                                self.score_at(bi, zi);
                            },
                            None => {},
                        }
                    },
                    None => {},
                }
            },
        }
    }

    /// Scoring engine, one tick: drain the collision events the external
    /// solver reported, in the order given; each unscored ball among them
    /// pays out at most once.
    pub fn multiplier_system(&mut self, events: &Vec<CollisionEvent>)
        requires
            old(self).wf(),
            old(self)@.balance + (MAX_PAYOUT as int) * events@.len() <= u64::MAX,
        ensures
            final(self).wf(),
            final(self)@ == score_steps(old(self)@, events@),
    {
        let n = events.len();
        let mut i: usize = 0;
        proof {
            assert(events@.take(0) =~= Seq::<CollisionEvent>::empty());
        }
        while i < n
            invariant
                self.wf(),
                n == events@.len(),
                i <= n,
                old(self)@.balance + (MAX_PAYOUT as int) * events@.len() <= u64::MAX,
                self@ == score_steps(old(self)@, events@.take(i as int)),
                self@.balance <= old(self)@.balance + (MAX_PAYOUT as int) * i,
            decreases n - i,
        {
            let ev = events[i];
            let ghost pre = self@;
            proof {
                assert((MAX_PAYOUT as int) * i + MAX_PAYOUT <= (MAX_PAYOUT as int) * events@.len());
                assert(payout_headroom(self@));
            }
            self.process_collision(ev);
            proof {
                lemma_score_step_wf(pre, ev);
                assert(events@.take(i as int + 1) =~= events@.take(i as int).push(ev));
                lemma_score_steps_push(old(self)@, events@.take(i as int), ev);
            }
            i += 1;
        }
        proof {
            assert(events@.take(n as int) =~= events@);
        }
    }
}

/// A ball after the gravity override: vertical velocity lowered by the fall
/// rate, spin forced to zero, all else kept.
pub open spec fn fallen_ball(b: Ball) -> Ball {
    Ball { vy: (b.vy - FALL_RATE) as i64, spin: 0, ..b }
}

/// A ball after the external solver's write-back of its kinematic state.
pub open spec fn moved_ball(b: Ball, x: i64, y: i64, vx: i64, vy: i64, spin: i64) -> Ball {
    Ball { id: b.id, has_scored: b.has_scored, x, y, vx, vy, spin }
}

/// A live shake after `delta_ms` of it has elapsed (with time still left).
pub open spec fn ticked_shake(s: ScreenShake, delta_ms: u64) -> ScreenShake {
    ScreenShake { remaining_ms: (s.remaining_ms - delta_ms) as u64, ..s }
}

impl Plinko {
    /// Gravity override, run once per tick before the external solver
    /// integrates: every ball's vertical velocity drops by the constant fall
    /// rate — a deliberately tick-rate-dependent fall model — and its spin is
    /// forced to zero, overriding whatever the solver computed last tick.
    pub fn modify_body_velocity(&mut self)
        requires
            old(self).wf(),
            forall|i: int|
                0 <= i < old(self)@.balls.len() ==> (#[trigger] old(self)@.balls[i].vy)
                    - FALL_RATE >= i64::MIN,
        ensures
            final(self).wf(),
            final(self)@ == (SimModel {
                balls: old(self)@.balls.map_values(|b: Ball| fallen_ball(b)),
                ..old(self)@
            }),
    {
        let n = self.balls.len();
        let mut i: usize = 0;
        while i < n
            invariant
                n == old(self)@.balls.len(),
                i <= n,
                self@.balls.len() == n,
                forall|k: int|
                    0 <= k < i ==> (#[trigger] self@.balls[k]) == fallen_ball(
                        old(self)@.balls[k],
                    ),
                forall|k: int| i <= k < n ==> (#[trigger] self@.balls[k]) == old(self)@.balls[k],
                forall|k: int|
                    0 <= k < old(self)@.balls.len() ==> (#[trigger] old(self)@.balls[k].vy)
                        - FALL_RATE >= i64::MIN,
                self@ == (SimModel { balls: self@.balls, ..old(self)@ }),
            decreases n - i,
        {
            let mut b = self.balls[i];
            b.vy = b.vy - FALL_RATE;
            b.spin = 0;
            self.balls.set(i, b);
            i += 1;
        }
        proof {
            assert(self@.balls =~= old(self)@.balls.map_values(|b: Ball| fallen_ball(b)));
            assert forall|k: int| 0 <= k < self@.balls.len() implies (#[trigger] self@.balls[k].id)
                == old(self)@.balls[k].id by {}
        }
    }

    /// External solver write-back: replace the kinematic state of the ball
    /// carrying `id`, keeping its handle and its one-shot guard. An unknown
    /// handle changes nothing.
    pub fn set_ball_state(&mut self, id: u64, x: i64, y: i64, vx: i64, vy: i64, spin: i64) -> (found:
        bool)
        requires
            old(self).wf(),
        ensures
            final(self).wf(),
            found == has_ball(old(self)@, id),
            found ==> final(self)@ == (SimModel {
                balls: old(self)@.balls.update(
                    ball_index(old(self)@, id),
                    moved_ball(
                        old(self)@.balls[ball_index(old(self)@, id)],
                        x,
                        y,
                        vx,
                        vy,
                        spin,
                    ),
                ),
                ..old(self)@
            }),
            !found ==> final(self)@ == old(self)@,
    {
        match self.find_ball(id) {
            Some(i) => {
                let b = self.balls[i];
                self.balls.set(i, Ball { id: b.id, has_scored: b.has_scored, x, y, vx, vy, spin });
                proof {
                    assert forall|k: int| 0 <= k < self@.balls.len() implies (
                    #[trigger] self@.balls[k].id) == old(self)@.balls[k].id by {}
                }
                true
            },
            None => false,
        }
    }

    /// Feedback effect decay, run once per tick: while a shake is live, the
    /// camera offset is a fresh uniform draw within the linearly decaying
    /// shake amount; once the elapsed time reaches the duration, the offset
    /// snaps to exactly zero and the effect is removed.
    pub fn screen_shake_system(&mut self, delta_ms: u64)
        requires
            old(self).wf(),
        ensures
            final(self).wf(),
            match old(self)@.shake {
                None => final(self)@ == old(self)@,
                Some(s) => if delta_ms >= s.remaining_ms {
                    final(self)@ == (SimModel {
                        shake: None,
                        offset_x: 0,
                        offset_y: 0,
                        ..old(self)@
                    })
                } else {
                    final(self)@ == (SimModel {
                        shake: Some(ticked_shake(s, delta_ms)),
                        offset_x: final(self)@.offset_x,
                        offset_y: final(self)@.offset_y,
                        ..old(self)@
                    }) && -ticked_shake(s, delta_ms).amount_spec() <= final(self)@.offset_x
                        <= ticked_shake(s, delta_ms).amount_spec() && -ticked_shake(
                        s,
                        delta_ms,
                    ).amount_spec() <= final(self)@.offset_y <= ticked_shake(
                        s,
                        delta_ms,
                    ).amount_spec()
                },
            },
    {
        match self.shake {
            None => {},
            Some(s) => {
                if delta_ms >= s.remaining_ms {
                    self.shake = None;
                    self.offset_x = 0;
                    self.offset_y = 0;
                } else {
                    let s2 = ScreenShake {
                        remaining_ms: s.remaining_ms - delta_ms,
                        duration_ms: s.duration_ms,
                        intensity_milli: s.intensity_milli,
                    };
                    let amt = s2.amount();
                    let amt_i = amt as i64;
                    let mut rng = thread_rng_handle();
                    let ox = gen_range_inclusive(&mut rng, -amt_i, amt_i);
                    let oy = gen_range_inclusive(&mut rng, -amt_i, amt_i);
                    self.shake = Some(s2);
                    self.offset_x = ox;
                    self.offset_y = oy;
                }
            },
        }
    }
}

/// The registry after pruning: exactly the balls strictly above the floor,
/// in their original order.
pub open spec fn pruned_balls(s: Seq<Ball>, floor: i64) -> Seq<Ball>
    decreases s.len(),
{
    if s.len() == 0 {
        Seq::empty()
    } else if s[0].y > floor {
        seq![s[0]] + pruned_balls(s.skip(1), floor)
    } else {
        pruned_balls(s.skip(1), floor)
    }
}

/// The state after the lifecycle manager prunes fallen balls: only the
/// registry changes.
pub open spec fn prune_model(m: SimModel, floor: i64) -> SimModel {
    SimModel { balls: pruned_balls(m.balls, floor), ..m }
}

/// Pruning keeps only balls above the floor, invents no ball, and preserves
/// distinctness of handles.
pub proof fn lemma_pruned_props(s: Seq<Ball>, floor: i64)
    ensures
        pruned_balls(s, floor).len() <= s.len(),
        forall|i: int|
            0 <= i < pruned_balls(s, floor).len() ==> (#[trigger] pruned_balls(s, floor)[i]).y
                > floor,
        forall|i: int|
            0 <= i < pruned_balls(s, floor).len() ==> s.contains(
                #[trigger] pruned_balls(s, floor)[i],
            ),
        (forall|i: int, j: int|
            0 <= i < j < s.len() ==> (#[trigger] s[i].id) != (#[trigger] s[j].id)) ==> (forall|
            i: int,
            j: int,
        |
            0 <= i < j < pruned_balls(s, floor).len() ==> (#[trigger] pruned_balls(s, floor)[i].id)
                != (#[trigger] pruned_balls(s, floor)[j].id)),
    decreases s.len(),
{
    let p = pruned_balls(s, floor);
    if s.len() == 0 {
    } else {
        let rest = s.skip(1);
        lemma_pruned_props(rest, floor);
        let pr = pruned_balls(rest, floor);
        assert forall|i: int| 0 <= i < pr.len() implies s.contains(#[trigger] pr[i]) by {
            assert(rest.contains(pr[i]));
            let j = choose|j: int| 0 <= j < rest.len() && rest[j] == pr[i];
            assert(s[j + 1] == rest[j]);
            assert(s.contains(s[j + 1]));
        }
        if s[0].y > floor {
            assert(p == seq![s[0]] + pr);
            assert(p[0] == s[0]);
            assert(s.contains(s[0]));
            assert forall|i: int| 1 <= i < p.len() implies (#[trigger] p[i]) == pr[i - 1] by {}
        }
        if forall|i: int, j: int|
            0 <= i < j < s.len() ==> (#[trigger] s[i].id) != (#[trigger] s[j].id) {
            assert forall|i: int, j: int| 0 <= i < j < rest.len() implies (#[trigger] rest[i].id)
                != (#[trigger] rest[j].id) by {
                assert(rest[i] == s[i + 1]);
                assert(rest[j] == s[j + 1]);
            }
            assert forall|i: int, j: int| 0 <= i < j < p.len() implies (#[trigger] p[i].id) != (
            #[trigger] p[j].id) by {
                if s[0].y > floor {
                    if i == 0 {
                        assert(p[j] == pr[j - 1]);
                        assert(rest.contains(pr[j - 1]));
                        let k = choose|k: int| 0 <= k < rest.len() && rest[k] == pr[j - 1];
                        assert(rest[k] == s[k + 1]);
                        assert(s[0].id != s[k + 1].id);
                    } else {
                        assert(p[i] == pr[i - 1]);
                        assert(p[j] == pr[j - 1]);
                    }
                }
            }
        }
    }
}

/// Pruning preserves well-formedness of the whole state.
pub proof fn lemma_pruned_wf(m: SimModel, floor: i64)
    requires
        wf_model(m),
    ensures
        wf_model(prune_model(m, floor)),
{
    lemma_pruned_props(m.balls, floor);
    let p = pruned_balls(m.balls, floor);
    assert forall|i: int, j: int|
        0 <= i < p.len() && 0 <= j < m.zones.len() implies #[trigger] p[i].id
        != #[trigger] m.zones[j].id by {
        assert(m.balls.contains(p[i]));
        let k = choose|k: int| 0 <= k < m.balls.len() && m.balls[k] == p[i];
        assert(m.balls[k].id != m.zones[j].id);
    }
    assert forall|i: int| 0 <= i < p.len() implies (#[trigger] p[i].id) < m.next_id by {
        assert(m.balls.contains(p[i]));
        let k = choose|k: int| 0 <= k < m.balls.len() && m.balls[k] == p[i];
        assert(m.balls[k].id < m.next_id);
    }
}

impl Plinko {
    /// Ball lifecycle, run every tick after physics integration: every ball
    /// whose vertical position is at or below the floor is destroyed and
    /// leaves the registry; the survivors keep their order.
    pub fn prune_fallen(&mut self, floor_y: i64)
        requires
            old(self).wf(),
        ensures
            final(self).wf(),
            final(self)@ == prune_model(old(self)@, floor_y),
            forall|i: int|
                0 <= i < final(self)@.balls.len() ==> (#[trigger] final(self)@.balls[i]).y
                    > floor_y,
    {
        let mut kept: Vec<Ball> = Vec::new();
        let n = self.balls.len();
        let mut i: usize = 0;
        proof {
            assert(self@.balls.skip(0) =~= self@.balls);
        }
        while i < n
            invariant
                self@ == old(self)@,
                n == self@.balls.len(),
                i <= n,
                pruned_balls(old(self)@.balls, floor_y) == kept@ + pruned_balls(
                    old(self)@.balls.skip(i as int),
                    floor_y,
                ),
            decreases n - i,
        {
            let b = self.balls[i];
            proof {
                let rest = old(self)@.balls.skip(i as int);
                assert(rest[0] == old(self)@.balls[i as int]);
                assert(rest.skip(1) =~= old(self)@.balls.skip(i as int + 1));
            }
            if b.y > floor_y {
                let ghost kept0 = kept@;
                kept.push(b);
                proof {
                    let tail = pruned_balls(old(self)@.balls.skip(i as int + 1), floor_y);
                    assert(kept@ =~= kept0 + seq![b]);
                    assert((kept0 + seq![b]) + tail =~= kept0 + (seq![b] + tail));
                }
            }
            i += 1;
        }
        proof {
            assert(old(self)@.balls.skip(n as int) =~= Seq::<Ball>::empty());
            assert(pruned_balls(Seq::<Ball>::empty(), floor_y) == Seq::<Ball>::empty());
            assert(kept@ + Seq::<Ball>::empty() =~= kept@);
        }
        self.balls = kept;
        proof {
            lemma_pruned_wf(old(self)@, floor_y);
            lemma_pruned_props(old(self)@.balls, floor_y);
        }
    }
}

/// Once a ball's handle is gone from the registry — and handles are never
/// reused — no collision event naming it can change the state: a pruned ball
/// generates no further scoring.
pub proof fn lemma_removed_ball_never_scores(m: SimModel, id: u64, e: CollisionEvent)
    requires
        wf_model(m),
        !has_ball(m, id),
        !has_zone(m, id),
        e.first == id || e.second == id,
    ensures
        score_step(m, e) == m,
{
}

/// After pruning, a ball that sat at or below the floor is gone from the
/// registry.
pub proof fn lemma_pruned_ball_gone(m: SimModel, floor: i64, id: u64)
    requires
        wf_model(m),
        has_ball(m, id),
        m.balls[ball_index(m, id)].y <= floor,
    ensures
        !has_ball(prune_model(m, floor), id),
{
    lemma_pruned_props(m.balls, floor);
    let p = pruned_balls(m.balls, floor);
    let bi = ball_index(m, id);
    assert(0 <= bi < m.balls.len() && m.balls[bi].id == id);
    if has_ball(prune_model(m, floor), id) {
        let k = choose|k: int| 0 <= k < p.len() && (#[trigger] p[k].id) == id;
        assert(p[k].y > floor);
        assert(m.balls.contains(p[k]));
        let j = choose|j: int| 0 <= j < m.balls.len() && m.balls[j] == p[k];
        lemma_ball_index_agrees(m, id, j);
        assert(false);
    }
}

/// Whether this event makes the ball carrying `id` pay out: its one-shot
/// guard flips from unset to set.
pub open spec fn pays_ball(m: SimModel, e: CollisionEvent, id: u64) -> bool {
    &&& has_ball(m, id)
    &&& !m.balls[ball_index(m, id)].has_scored
    &&& score_step(m, e).balls[ball_index(m, id)].has_scored
}

/// How many events of the sequence make the ball carrying `id` pay out.
pub open spec fn payout_count(m: SimModel, evs: Seq<CollisionEvent>, id: u64) -> nat
    decreases evs.len(),
{
    if evs.len() == 0 {
        0
    } else {
        (if pays_ball(m, evs[0], id) {
            1 as nat
        } else {
            0 as nat
        }) + payout_count(score_step(m, evs[0]), evs.skip(1), id)
    }
}

/// The one-shot guard is monotone: once a ball has scored, it stays scored
/// through any event.
pub proof fn lemma_scored_persists(m: SimModel, e: CollisionEvent, id: u64)
    requires
        wf_model(m),
        has_ball(m, id),
        m.balls[ball_index(m, id)].has_scored,
    ensures
        has_ball(score_step(m, e), id),
        ball_index(score_step(m, e), id) == ball_index(m, id),
        score_step(m, e).balls[ball_index(m, id)].has_scored,
{
    let m1 = score_step(m, e);
    lemma_score_step_wf(m, e);
    let i = ball_index(m, id);
    assert(0 <= i < m.balls.len() && m.balls[i].id == id);
    assert(m1.balls[i].id == id);
    lemma_ball_index_agrees(m1, id, i);
    assert(m1.balls[i].has_scored || m1.balls[i] == m.balls[i]);
}

/// A scored ball never pays again, whatever events follow.
pub proof fn lemma_payout_count_zero(m: SimModel, evs: Seq<CollisionEvent>, id: u64)
    requires
        wf_model(m),
        has_ball(m, id),
        m.balls[ball_index(m, id)].has_scored,
    ensures
        payout_count(m, evs, id) == 0,
    decreases evs.len(),
{
    if evs.len() > 0 {
        lemma_scored_persists(m, evs[0], id);
        lemma_score_step_wf(m, evs[0]);
        lemma_payout_count_zero(score_step(m, evs[0]), evs.skip(1), id);
    }
}

/// At-most-once payout: across any sequence of collision events, any single
/// ball pays out at most once — however many zones it goes on to touch, the
/// balance sees that ball's contribution no more than one time.
pub proof fn lemma_at_most_once(m: SimModel, evs: Seq<CollisionEvent>, id: u64)
    requires
        wf_model(m),
    ensures
        payout_count(m, evs, id) <= 1,
    decreases evs.len(),
{
    if evs.len() > 0 {
        let m1 = score_step(m, evs[0]);
        lemma_score_step_wf(m, evs[0]);
        if pays_ball(m, evs[0], id) {
            let i = ball_index(m, id);
            assert(0 <= i < m.balls.len() && m.balls[i].id == id);
            assert(m1.balls[i].id == id);
            lemma_ball_index_agrees(m1, id, i);
            lemma_payout_count_zero(m1, evs.skip(1), id);
        } else {
            lemma_at_most_once(m1, evs.skip(1), id);
        }
    }
}

/// The balance moves only through a payout: an event that changes the
/// balance makes exactly one ball pay out, by the payout base times the power
/// of the zone it touched.
pub proof fn lemma_balance_moves_only_on_payout(m: SimModel, e: CollisionEvent)
    requires
        wf_model(m),
    ensures
        score_step(m, e).balance != m.balance ==> exists|id: u64| #[trigger] pays_ball(m, e, id),
{
    let m1 = score_step(m, e);
    if m1.balance != m.balance {
        if e.started && has_ball(m, e.first) && has_zone(m, e.second) && !m.balls[ball_index(
            m,
            e.first,
        )].has_scored {
            assert(pays_ball(m, e, e.first));
        } else {
            assert(pays_ball(m, e, e.second));
        }
    }
}

/// Affordability guard: a spawn never drives the balance below zero — an
/// affordable spawn leaves exactly the balance minus the cost, and an
/// unaffordable attempt leaves balance and registry untouched and activates
/// the feedback effect.
pub proof fn lemma_affordability_guard(m: SimModel, cost: u64, jitter: i64)
    requires
        m.balance >= 0,
    ensures
        m.balance >= cost ==> spawn_ok_model(m, cost, jitter).balance == m.balance - cost
            && spawn_ok_model(m, cost, jitter).balance >= 0,
        m.balance < cost ==> spawn_refused_model(m).balance == m.balance && spawn_refused_model(
            m,
        ).balls == m.balls && spawn_refused_model(m).shake == Some(ScreenShake::fresh_spec()),
{
}

} // verus!
