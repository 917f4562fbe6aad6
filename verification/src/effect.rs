//! Debris bursts: what is spawned for a collected pickup, and when each
//! particle is taken away again.
use vstd::prelude::*;
use rand::rngs::ThreadRng;
use rand::Rng;
use crate::fixed::{clamp64, clamp_to_i64, Vec3};

verus! {

/// Edge length of one debris particle and spacing of the burst grid.
pub const EFFECT_SIZE: i64 = 100_000;

/// Lifetime of a debris particle, in microseconds.
pub const EFFECT_TIME: i64 = 2_000_000;

/// Bound of the random horizontal impulse on each axis.
pub const IMPULSE_SPREAD: i64 = 10_000;

/// Upward impulse that every particle gets.
pub const IMPULSE_LIFT: i64 = 10_000;

/// Number of particles in one burst.
pub const BURST: usize = 32;

/// A request for one burst at the given origin.
#[derive(Clone, Copy, Debug, PartialEq, Eq, Structural)]
pub struct CreateEffectEvent(pub Vec3);

/// Remaining lifetime in microseconds.
#[derive(Clone, Copy, Debug, PartialEq, Eq, Structural)]
pub struct Timer {
    pub value: i64,
}

/// One debris particle as it is handed to the physics engine.
#[derive(Clone, Copy, Debug, PartialEq, Eq, Structural)]
pub struct Debris {
    pub position: Vec3,
    pub impulse: Vec3,
    pub torque_impulse: Vec3,
    pub timer: Timer,
}

/// A live debris particle: the engine's handle and the time it has left.
#[derive(Clone, Copy, Debug, PartialEq, Eq, Structural)]
pub struct Timed {
    pub entity: u64,
    pub timer: Timer,
}

/// Grid offset of the `k`-th particle of a burst: four columns along x,
/// two layers along y, four rows along z, the z index running fastest.
pub open spec fn grid_offset(k: int) -> Vec3 {
    Vec3 {
        x: ((k / 8 - 2) * EFFECT_SIZE) as i64,
        y: (((k / 4) % 2) * EFFECT_SIZE) as i64,
        z: ((k % 4 - 2) * EFFECT_SIZE) as i64,
    }
}

/// The `k`-th particle of a burst at `origin` with the given horizontal
/// impulse.
pub open spec fn particle(origin: Vec3, k: int, push_x: i64, push_z: i64) -> Debris {
    Debris {
        position: origin.spec_saturating_add(grid_offset(k)),
        impulse: Vec3 { x: push_x, y: IMPULSE_LIFT, z: push_z },
        torque_impulse: Vec3 { x: 0, y: 0, z: 0 },
        timer: Timer { value: EFFECT_TIME },
    }
}

/// `d` is the `k`-th particle of a burst at `origin` for some admissible
/// random impulse.
pub open spec fn is_particle(d: Debris, origin: Vec3, k: int) -> bool {
    &&& -IMPULSE_SPREAD <= d.impulse.x < IMPULSE_SPREAD
    &&& -IMPULSE_SPREAD <= d.impulse.z < IMPULSE_SPREAD
    &&& d == particle(origin, k, d.impulse.x, d.impulse.z)
}

/// The random generator of the current thread.
#[verifier::external_type_specification]
#[verifier::external_body]
pub struct ExThreadRng(rand::rngs::ThreadRng);

/// `rand::thread_rng`: hands out the calling thread's generator, which the
/// system seeds. Nothing is claimed of it.
#[verifier::external_body]
fn thread_rng() -> ThreadRng {
    rand::thread_rng()
}

/// `Rng::gen_range` on a half-open range of `i64`: the sample lies in
/// `low..high`. The range must not be empty, or the call panics.
#[verifier::external_body]
fn gen_range(rng: &mut ThreadRng, low: i64, high: i64) -> (r: i64)
    requires
        low < high,
    ensures
        low <= r < high,
{
    rng.gen_range(low..high)
}

/// Builds the particle of grid cell `(ix, iy, iz)` from the two random
/// samples drawn for it.
pub fn make_particle(origin: Vec3, ix: i64, iy: i64, iz: i64, push_x: i64, push_z: i64) -> (d:
    Debris)
    requires
        -2 <= ix < 2,
        0 <= iy < 2,
        -2 <= iz < 2,
    ensures
        d == particle(origin, (ix + 2) * 8 + iy * 4 + (iz + 2), push_x, push_z),
{
    let offset = Vec3 { x: ix * EFFECT_SIZE, y: iy * EFFECT_SIZE, z: iz * EFFECT_SIZE };
    assert(offset == grid_offset((ix + 2) * 8 + iy * 4 + (iz + 2)));
    Debris {
        position: origin.saturating_add(offset),
        impulse: Vec3 { x: push_x, y: IMPULSE_LIFT, z: push_z },
        torque_impulse: Vec3 { x: 0, y: 0, z: 0 },
        timer: Timer { value: EFFECT_TIME },
    }
}

/// Appends one burst of 32 particles at `origin` to `out`.
fn burst(origin: Vec3, rng: &mut ThreadRng, out: &mut Vec<Debris>)
    ensures
        final(out)@.len() == old(out)@.len() + BURST,
        final(out)@.subrange(0, old(out)@.len() as int) == old(out)@,
        forall|k: int|
            0 <= k < BURST ==> is_particle(
                #[trigger] final(out)@[old(out)@.len() + k],
                origin,
                k,
            ),
{
    let ghost before = out@;
    let mut ix: i64 = -2;
    while ix < 2
        invariant
            -2 <= ix <= 2,
            out@.len() == before.len() + (ix + 2) * 8,
            out@.subrange(0, before.len() as int) == before,
            forall|k: int|
                0 <= k < (ix + 2) * 8 ==> is_particle(#[trigger] out@[before.len() + k], origin, k),
        decreases 2 - ix,
    {
        let mut iy: i64 = 0;
        while iy < 2
            invariant
                -2 <= ix < 2,
                0 <= iy <= 2,
                out@.len() == before.len() + (ix + 2) * 8 + iy * 4,
                out@.subrange(0, before.len() as int) == before,
                forall|k: int|
                    0 <= k < (ix + 2) * 8 + iy * 4 ==> is_particle(
                        #[trigger] out@[before.len() + k],
                        origin,
                        k,
                    ),
            decreases 2 - iy,
        {
            let mut iz: i64 = -2;
            while iz < 2
                invariant
                    -2 <= ix < 2,
                    0 <= iy < 2,
                    -2 <= iz <= 2,
                    out@.len() == before.len() + (ix + 2) * 8 + iy * 4 + (iz + 2),
                    out@.subrange(0, before.len() as int) == before,
                    forall|k: int|
                        0 <= k < (ix + 2) * 8 + iy * 4 + (iz + 2) ==> is_particle(
                            #[trigger] out@[before.len() + k],
                            origin,
                            k,
                        ),
                decreases 2 - iz,
            {
                let push_x = gen_range(rng, -IMPULSE_SPREAD, IMPULSE_SPREAD);
                let push_z = gen_range(rng, -IMPULSE_SPREAD, IMPULSE_SPREAD);
                let d = make_particle(origin, ix, iy, iz, push_x, push_z);
                let ghost prev = out@;
                out.push(d);
                proof {
                    assert(out@.subrange(0, before.len() as int) =~= prev.subrange(
                        0,
                        before.len() as int,
                    ));
                    assert forall|k: int|
                        0 <= k < (ix + 2) * 8 + iy * 4 + (iz + 2) + 1 implies is_particle(
                        #[trigger] out@[before.len() + k],
                        origin,
                        k,
                    ) by {
                        if k < (ix + 2) * 8 + iy * 4 + (iz + 2) {
                            assert(out@[before.len() + k] == prev[before.len() + k]);
                        }
                    }
                }
                iz = iz + 1;
            }
            iy = iy + 1;
        }
        ix = ix + 1;
    }
}

/// The bursts for every request of the frame, one after another: request
/// `i` owns the particles `32 * i .. 32 * i + 32`, each at its fixed grid
/// position whatever impulse chance gave it.
pub fn create_effect(events: &Vec<CreateEffectEvent>) -> (spawned: Vec<Debris>)
    ensures
        spawned@.len() == BURST * events@.len(),
        forall|j: int|
            0 <= j < spawned@.len() ==> is_particle(#[trigger] spawned@[j], events@[j / 32].0, j % 32),
{
    let mut rng = thread_rng();
    let mut spawned: Vec<Debris> = Vec::new();
    let mut i: usize = 0;
    while i < events.len()
        invariant
            0 <= i <= events@.len(),
            spawned@.len() == BURST * i,
            forall|j: int|
                0 <= j < spawned@.len() ==> is_particle(
                    #[trigger] spawned@[j],
                    events@[j / 32].0,
                    j % 32,
                ),
        decreases events@.len() - i,
    {
        let ghost prev = spawned@;
        burst(events[i].0, &mut rng, &mut spawned);
        proof {
            assert forall|j: int| 0 <= j < spawned@.len() implies is_particle(
                #[trigger] spawned@[j],
                events@[j / 32].0,
                j % 32,
            ) by {
                if j < prev.len() {
                    assert(spawned@.subrange(0, prev.len() as int)[j] == spawned@[j]);
                } else {
                    let k = j - prev.len();
                    assert(is_particle(spawned@[prev.len() + k], events@[i as int].0, k));
                }
            }
        }
        i = i + 1;
    }
    spawned
}

/// The entry after `delta` microseconds have passed.
pub open spec fn aged(e: Timed, delta: u32) -> Timed {
    Timed { entity: e.entity, timer: Timer { value: clamp64(e.timer.value - delta) as i64 } }
}

/// `aged` as a function of the entry.
pub open spec fn aging(delta: u32) -> spec_fn(Timed) -> Timed {
    |e: Timed| aged(e, delta)
}

/// Entries whose time has not run out.
pub open spec fn alive() -> spec_fn(Timed) -> bool {
    |e: Timed| e.timer.value > 0
}

/// Entries whose time has run out.
pub open spec fn expired() -> spec_fn(Timed) -> bool {
    |e: Timed| e.timer.value <= 0
}

/// The handle of an entry.
pub open spec fn handle() -> spec_fn(Timed) -> u64 {
    |e: Timed| e.entity
}

/// The pool after a frame of `delta` microseconds: every timer is
/// counted down, and the entries that reached zero are gone.
pub open spec fn survivors(pool: Seq<Timed>, delta: u32) -> Seq<Timed> {
    pool.map_values(aging(delta)).filter(alive())
}

/// The handles that a frame of `delta` microseconds takes out of the
/// pool, in pool order.
pub open spec fn casualties(pool: Seq<Timed>, delta: u32) -> Seq<u64> {
    pool.map_values(aging(delta)).filter(expired()).map_values(handle())
}

/// Counts `delta` microseconds down on every particle of the pool, drops
/// the particles whose time has run out and returns their handles so that
/// the engine can destroy them.
pub fn remove_effect(pool: &mut Vec<Timed>, delta: u32) -> (gone: Vec<u64>)
    ensures
        final(pool)@ == survivors(old(pool)@, delta),
        gone@ == casualties(old(pool)@, delta),
{
    let mut kept: Vec<Timed> = Vec::new();
    let mut gone: Vec<u64> = Vec::new();
    let mut i: usize = 0;
    proof {
        assert(pool@.take(0) =~= Seq::<Timed>::empty());
        assert(survivors(pool@.take(0), delta) =~= Seq::<Timed>::empty());
        assert(casualties(pool@.take(0), delta) =~= Seq::<u64>::empty());
    }
    while i < pool.len()
        invariant
            0 <= i <= pool@.len(),
            kept@ == survivors(pool@.take(i as int), delta),
            gone@ == casualties(pool@.take(i as int), delta),
        decreases pool@.len() - i,
    {
        let e = pool[i];
        let left: i64 = clamp_to_i64(e.timer.value as i128 - delta as i128);
        let next = Timed { entity: e.entity, timer: Timer { value: left } };
        proof {
            let before = pool@.take(i as int);
            let mapped = before.map_values(aging(delta));
            assert(next == aging(delta)(e));
            pool@.lemma_take_succ_push(i as int);
            before.lemma_push_map_commute(aging(delta), e);
            mapped.lemma_filter_push(next, alive());
            mapped.lemma_filter_push(next, expired());
            mapped.filter(expired()).lemma_push_map_commute(handle(), next);
        }
        if left <= 0 {
            gone.push(e.entity);
        } else {
            kept.push(next);
        }
        i = i + 1;
    }
    proof {
        pool@.lemma_take_len();
    }
    *pool = kept;
    gone
}

/// Every particle of the pool has time left.
pub open spec fn live(pool: Seq<Timed>) -> bool {
    forall|i: int| 0 <= i < pool.len() ==> (#[trigger] pool[i]).timer.value > 0
}

/// The pool holds the particle `entity` with `value` microseconds left.
pub open spec fn holds(pool: Seq<Timed>, entity: u64, value: int) -> bool {
    exists|i: int|
        0 <= i < pool.len() && (#[trigger] pool[i]).entity == entity && pool[i].timer.value
            == value
}

/// The pool holds the particle `entity`.
pub open spec fn present(pool: Seq<Timed>, entity: u64) -> bool {
    exists|i: int| 0 <= i < pool.len() && (#[trigger] pool[i]).entity == entity
}

/// The microseconds that the frames `deltas` took together.
pub open spec fn elapsed(deltas: Seq<u32>) -> int
    decreases deltas.len(),
{
    if deltas.len() == 0 {
        0
    } else {
        elapsed(deltas.drop_last()) + deltas.last()
    }
}

/// None of the bursts brings a particle with the handle `entity`.
pub open spec fn foreign(arrivals: Seq<Seq<Timed>>, entity: u64) -> bool {
    forall|f: int, i: int|
        0 <= f < arrivals.len() && 0 <= i < arrivals[f].len() ==> (#[trigger] arrivals[f][i]).entity
            != entity
}

/// Every particle that the bursts bring has time left.
pub open spec fn fresh(arrivals: Seq<Seq<Timed>>) -> bool {
    forall|f: int| 0 <= f < arrivals.len() ==> live(#[trigger] arrivals[f])
}

/// The pool after the frames `deltas`, where frame `f` first counts down
/// what is there and then takes in the particles `arrivals[f]`.
pub open spec fn pool_after(pool: Seq<Timed>, deltas: Seq<u32>, arrivals: Seq<Seq<Timed>>) -> Seq<
    Timed,
>
    decreases deltas.len(),
{
    if deltas.len() == 0 || arrivals.len() == 0 {
        pool
    } else {
        survivors(pool_after(pool, deltas.drop_last(), arrivals.drop_last()), deltas.last())
            + arrivals.last()
    }
}

/// One frame, particle by particle: a particle is in the pool after the
/// frame with `value` left exactly if `value` is positive and it was there
/// before with `delta` more; it is among the handles taken out exactly if
/// it was there with no more than `delta` left. What is left is live.
pub proof fn lemma_frame(pool: Seq<Timed>, delta: u32, entity: u64, value: int)
    requires
        live(pool),
    ensures
        live(survivors(pool, delta)),
        holds(survivors(pool, delta), entity, value) <==> value > 0 && holds(
            pool,
            entity,
            value + delta,
        ),
        casualties(pool, delta).contains(entity) <==> exists|i: int|
            0 <= i < pool.len() && (#[trigger] pool[i]).entity == entity && pool[i].timer.value
                <= delta,
{
    broadcast use Seq::lemma_filter_pred;

    let mapped = pool.map_values(aging(delta));
    let after = survivors(pool, delta);
    let dead = mapped.filter(expired());
    let gone = casualties(pool, delta);
    assert forall|i: int| 0 <= i < pool.len() implies (#[trigger] mapped[i]).entity
        == pool[i].entity && mapped[i].timer.value == pool[i].timer.value - delta by {
        assert(mapped[i] == aged(pool[i], delta));
    }
    if holds(after, entity, value) {
        let j = choose|j: int|
            0 <= j < after.len() && (#[trigger] after[j]).entity == entity && after[j].timer.value
                == value;
        assert(after.contains(after[j]));
        mapped.lemma_filter_contains_rev(alive(), after[j]);
        let i = choose|i: int| 0 <= i < mapped.len() && mapped[i] == after[j];
        assert(pool[i].entity == entity && pool[i].timer.value == value + delta);
    }
    if value > 0 && holds(pool, entity, value + delta) {
        let i = choose|i: int|
            0 <= i < pool.len() && (#[trigger] pool[i]).entity == entity && pool[i].timer.value
                == value + delta;
        assert(alive()(mapped[i]));
        mapped.lemma_filter_contains(alive(), i);
        let j = choose|j: int| 0 <= j < after.len() && after[j] == mapped[i];
        assert(after[j].entity == entity && after[j].timer.value == value);
    }
    if gone.contains(entity) {
        let j = choose|j: int| 0 <= j < gone.len() && gone[j] == entity;
        assert(dead.contains(dead[j]));
        mapped.lemma_filter_contains_rev(expired(), dead[j]);
        let i = choose|i: int| 0 <= i < mapped.len() && mapped[i] == dead[j];
        assert(pool[i].entity == entity && pool[i].timer.value <= delta);
    }
    if exists|i: int|
        0 <= i < pool.len() && (#[trigger] pool[i]).entity == entity && pool[i].timer.value
            <= delta {
        let i = choose|i: int|
            0 <= i < pool.len() && (#[trigger] pool[i]).entity == entity && pool[i].timer.value
                <= delta;
        assert(expired()(mapped[i]));
        mapped.lemma_filter_contains(expired(), i);
        let j = choose|j: int| 0 <= j < dead.len() && dead[j] == mapped[i];
        assert(gone[j] == entity);
    }
}

/// What holds of all bursts holds of the first `n` of them.
proof fn lemma_first_bursts(arrivals: Seq<Seq<Timed>>, n: int, entity: u64)
    requires
        fresh(arrivals),
        foreign(arrivals, entity),
        0 <= n <= arrivals.len(),
    ensures
        fresh(arrivals.take(n)),
        foreign(arrivals.take(n), entity),
{
    let first = arrivals.take(n);
    assert forall|f: int| 0 <= f < first.len() implies live(#[trigger] first[f]) by {
        assert(first[f] == arrivals[f]);
    }
    assert forall|f: int, i: int| 0 <= f < first.len() && 0 <= i < first[f].len() implies (
    #[trigger] first[f][i]).entity != entity by {
        assert(first[f][i] == arrivals[f][i]);
    }
}

/// Many frames, particle by particle: a particle whose handle no burst
/// brings is in the pool after the frames with `value` left exactly if
/// `value` is positive and it was there at the start with the elapsed time
/// more.
pub proof fn lemma_frames(
    pool: Seq<Timed>,
    deltas: Seq<u32>,
    arrivals: Seq<Seq<Timed>>,
    entity: u64,
    value: int,
)
    requires
        live(pool),
        arrivals.len() == deltas.len(),
        fresh(arrivals),
        foreign(arrivals, entity),
    ensures
        live(pool_after(pool, deltas, arrivals)),
        elapsed(deltas) >= 0,
        holds(pool_after(pool, deltas, arrivals), entity, value) <==> value > 0 && holds(
            pool,
            entity,
            value + elapsed(deltas),
        ),
    decreases deltas.len(),
{
    if deltas.len() > 0 {
        let front = deltas.drop_last();
        let earlier = arrivals.drop_last();
        let new = arrivals.last();
        assert(earlier =~= arrivals.take(arrivals.len() - 1));
        lemma_first_bursts(arrivals, arrivals.len() - 1, entity);
        lemma_frames(pool, front, earlier, entity, value + deltas.last());
        let before = pool_after(pool, front, earlier);
        let aged = survivors(before, deltas.last());
        let after = pool_after(pool, deltas, arrivals);
        lemma_frame(before, deltas.last(), entity, value);
        assert(live(new));
        assert(forall|i: int| 0 <= i < new.len() ==> new[i] == arrivals[arrivals.len() - 1][i]);
        assert(live(after)) by {
            assert forall|i: int| 0 <= i < after.len() implies (#[trigger] after[i]).timer.value
                > 0 by {
                if i < aged.len() {
                    assert(after[i] == aged[i]);
                } else {
                    assert(after[i] == new[i - aged.len()]);
                }
            }
        }
        if holds(after, entity, value) {
            let j = choose|j: int|
                0 <= j < after.len() && (#[trigger] after[j]).entity == entity
                    && after[j].timer.value == value;
            if j < aged.len() {
                assert(aged[j] == after[j]);
            } else {
                assert(new[j - aged.len()] == after[j]);
                assert(arrivals[arrivals.len() - 1][j - aged.len()].entity != entity);
            }
        }
        if holds(aged, entity, value) {
            let j = choose|j: int|
                0 <= j < aged.len() && (#[trigger] aged[j]).entity == entity && aged[j].timer.value
                    == value;
            assert(after[j] == aged[j]);
        }
    }
}

/// The life of a debris particle. Let a live pool hold `entity` with a
/// full `EFFECT_TIME` on its clock, and let frames follow that bring other
/// particles, none under the same handle. Then after each frame the
/// particle is still in the pool exactly if less than `EFFECT_TIME` has
/// elapsed by the end of that frame, and a frame hands its handle out for
/// destruction exactly if the elapsed time reaches `EFFECT_TIME` in that
/// frame: the first one at whose end it is no longer below.
pub proof fn lemma_debris_lifetime(
    pool: Seq<Timed>,
    deltas: Seq<u32>,
    arrivals: Seq<Seq<Timed>>,
    entity: u64,
    k: int,
)
    requires
        live(pool),
        present(pool, entity),
        forall|i: int|
            0 <= i < pool.len() && (#[trigger] pool[i]).entity == entity ==> pool[i].timer.value
                == EFFECT_TIME,
        arrivals.len() == deltas.len(),
        fresh(arrivals),
        foreign(arrivals, entity),
        0 <= k < deltas.len(),
    ensures
        elapsed(deltas.take(k)) <= elapsed(deltas.take(k + 1)),
        present(pool_after(pool, deltas.take(k + 1), arrivals.take(k + 1)), entity) <==> elapsed(
            deltas.take(k + 1),
        ) < EFFECT_TIME,
        casualties(pool_after(pool, deltas.take(k), arrivals.take(k)), deltas[k]).contains(entity)
            <==> elapsed(deltas.take(k)) < EFFECT_TIME <= elapsed(deltas.take(k + 1)),
{
    let before = deltas.take(k);
    let until = deltas.take(k + 1);
    let came_before = arrivals.take(k);
    let came_until = arrivals.take(k + 1);
    assert(until.drop_last() =~= before);
    assert(until.last() == deltas[k]);
    lemma_first_bursts(arrivals, k + 1, entity);
    lemma_first_bursts(arrivals, k, entity);
    let pool_before = pool_after(pool, before, came_before);
    let pool_until = pool_after(pool, until, came_until);
    assert(holds(pool, entity, EFFECT_TIME as int));

    lemma_frames(pool, until, came_until, entity, EFFECT_TIME - elapsed(until));
    if present(pool_until, entity) {
        let j = choose|j: int| 0 <= j < pool_until.len() && (#[trigger] pool_until[j]).entity == entity;
        let left = pool_until[j].timer.value as int;
        lemma_frames(pool, until, came_until, entity, left);
        assert(holds(pool_until, entity, left));
        let i = choose|i: int|
            0 <= i < pool.len() && (#[trigger] pool[i]).entity == entity && pool[i].timer.value
                == left + elapsed(until);
    }
    if elapsed(until) < EFFECT_TIME {
        let j = choose|j: int|
            0 <= j < pool_until.len() && (#[trigger] pool_until[j]).entity == entity
                && pool_until[j].timer.value == EFFECT_TIME - elapsed(until);
    }

    lemma_frames(pool, before, came_before, entity, EFFECT_TIME - elapsed(before));
    lemma_frame(pool_before, deltas[k], entity, 0);
    if casualties(pool_before, deltas[k]).contains(entity) {
        let j = choose|j: int|
            0 <= j < pool_before.len() && (#[trigger] pool_before[j]).entity == entity
                && pool_before[j].timer.value <= deltas[k];
        let left = pool_before[j].timer.value as int;
        lemma_frames(pool, before, came_before, entity, left);
        assert(holds(pool_before, entity, left));
        let i = choose|i: int|
            0 <= i < pool.len() && (#[trigger] pool[i]).entity == entity && pool[i].timer.value
                == left + elapsed(before);
    }
    if elapsed(before) < EFFECT_TIME <= elapsed(until) {
        let j = choose|j: int|
            0 <= j < pool_before.len() && (#[trigger] pool_before[j]).entity == entity
                && pool_before[j].timer.value == EFFECT_TIME - elapsed(before);
    }
}

} // verus!
