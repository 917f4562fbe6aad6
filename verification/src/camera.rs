//! The third-person camera that follows the ball.
use vstd::prelude::*;
use crate::fixed::{lerp_coord, rate_over, rate_times, scaled, Vec3, UNIT};

verus! {

/// The state that the follow camera carries from frame to frame.
#[derive(Clone, Copy, Debug, PartialEq, Eq, Structural)]
pub struct ThirdPersonCamera {
    /// Where the camera wants to be, relative to its target.
    pub ideal_offset: Vec3,
    /// Where the camera wants to look, relative to its target.
    pub ideal_lookat: Vec3,
    /// The point it looked at in the last frame.
    pub current_lookat: Vec3,
    /// Whether `current_lookat` has been set by a frame yet.
    pub lookat_available: bool,
    /// Smoothing rate per second, in fixed-point steps.
    pub follow: i64,
}

impl Default for ThirdPersonCamera {
    fn default() -> (c: ThirdPersonCamera)
        ensures
            c == (ThirdPersonCamera {
                ideal_offset: Vec3 { x: 0, y: 2_000_000, z: 6_000_000 },
                ideal_lookat: Vec3 { x: 0, y: 0, z: -4_000_000i64 },
                current_lookat: Vec3 { x: 0, y: 0, z: 0 },
                lookat_available: false,
                follow: 1_200_000,
            }),
    {
        ThirdPersonCamera {
            ideal_offset: Vec3 { x: 0, y: 2 * UNIT, z: 6 * UNIT },
            ideal_lookat: Vec3 { x: 0, y: 0, z: -4 * UNIT },
            current_lookat: Vec3 { x: 0, y: 0, z: 0 },
            lookat_available: false,
            follow: 1_200_000,
        }
    }
}

/// Where the camera stands and what it faces after a frame. The engine
/// turns the camera from `position` toward `lookat`, with the world's y
/// axis as up.
#[derive(Clone, Copy, Debug, PartialEq, Eq, Structural)]
pub struct CameraPose {
    pub position: Vec3,
    pub lookat: Vec3,
}

impl ThirdPersonCamera {
    /// The smoothing factor of a frame that took `delta` microseconds:
    /// rate times time, not limited to `0..=UNIT`.
    pub open spec fn factor(self, delta: u32) -> i64 {
        rate_times(self.follow, delta) as i64
    }

    /// Where the camera wants to stand while its target is at `target`.
    pub open spec fn desired_position(self, target: Vec3) -> Vec3 {
        target.spec_saturating_add(self.ideal_offset)
    }

    /// Where the camera wants to look while its target is at `target`.
    pub open spec fn desired_lookat(self, target: Vec3) -> Vec3 {
        target.spec_saturating_add(self.ideal_lookat)
    }

    /// The camera's place after the frame: from where it stands, the
    /// fraction `factor` of the way to where it wants to stand.
    pub open spec fn next_position(self, position: Vec3, target: Vec3, delta: u32) -> Vec3 {
        position.spec_lerp(self.desired_position(target), self.factor(delta))
    }

    /// The point looked at after the frame. The first frame adopts the
    /// wanted point as it is; every later frame moves the last point the
    /// fraction `factor` of the way toward it.
    pub open spec fn next_lookat(self, target: Vec3, delta: u32) -> Vec3 {
        if self.lookat_available {
            self.current_lookat.spec_lerp(self.desired_lookat(target), self.factor(delta))
        } else {
            self.desired_lookat(target)
        }
    }
}

/// Advances the camera by one frame of `delta` microseconds. `position`
/// is where the camera stands now and `target` where the followed body is.
/// The returned pose is what the engine writes back; the point looked at is
/// also kept for the next frame.
pub fn move_camera(camera: &mut ThirdPersonCamera, position: Vec3, target: Vec3, delta: u32) -> (pose:
    CameraPose)
    ensures
        pose.position == old(camera).next_position(position, target, delta),
        pose.lookat == old(camera).next_lookat(target, delta),
        !old(camera).lookat_available ==> pose.lookat == old(camera).desired_lookat(target),
        *final(camera) == (ThirdPersonCamera {
            current_lookat: pose.lookat,
            lookat_available: true,
            ..*old(camera)
        }),
{
    let t = rate_over(camera.follow, delta);

    let mut offset = camera.ideal_offset;
    offset = target.saturating_add(offset);
    offset = position.lerp(offset, t);

    let mut lookat = camera.ideal_lookat;
    lookat = target.saturating_add(lookat);
    if camera.lookat_available {
        lookat = camera.current_lookat.lerp(lookat, t);
    } else {
        camera.lookat_available = true;
    }
    camera.current_lookat = lookat;

    CameraPose { position: offset, lookat }
}

/// `c` lies between `a` and `b`, the ends included.
pub open spec fn between(a: int, c: int, b: int) -> bool {
    (a <= c <= b) || (b <= c <= a)
}

/// On every axis `next` lies between `from` and `goal`: a step from `from`
/// to `next` comes closer to `goal`, or stays, and does not pass it.
pub open spec fn approaches(from: Vec3, next: Vec3, goal: Vec3) -> bool {
    &&& between(from.x as int, next.x as int, goal.x as int)
    &&& between(from.y as int, next.y as int, goal.y as int)
    &&& between(from.z as int, next.z as int, goal.z as int)
}

/// With a factor strictly between zero and one, interpolation from `a`
/// toward `b` ends between the two, moves whenever the factor's share of
/// the distance is a whole step, and reaches `b` only where it started
/// there.
pub proof fn lemma_lerp_approaches(a: i64, b: i64, t: i64)
    requires
        0 < t < UNIT,
    ensures
        between(a as int, lerp_coord(a, b, t), b as int),
        a != b ==> lerp_coord(a, b, t) != b,
        (b - a) * t >= UNIT || (a - b) * t >= UNIT ==> lerp_coord(a, b, t) != a,
{
    let d = b - a;
    let t = t as int;
    let p = d * t;
    assert((a - b) * t == -p) by (nonlinear_arith)
        requires
            p == (b - a) * t,
    ;
    if d >= 0 {
        assert(0 <= p && (d > 0 ==> p < d * 1_000_000) && (d == 0 ==> p == 0)) by (nonlinear_arith)
            requires
                p == d * t,
                d >= 0,
                0 < t < 1_000_000,
        ;
        assert(scaled(d, t) == p / 1_000_000);
        assert(0 <= scaled(d, t) <= d);
    } else {
        assert(p < 0 && -p < (-d) * 1_000_000) by (nonlinear_arith)
            requires
                p == d * t,
                d < 0,
                0 < t < 1_000_000,
        ;
        assert(scaled(d, t) == -((-p) / 1_000_000));
        assert(d < scaled(d, t) <= 0);
    }
}

/// A frame whose smoothing factor lies strictly between zero and one
/// moves the camera toward the place where it wants to stand and not
/// past it.
pub proof fn lemma_camera_approaches(
    camera: ThirdPersonCamera,
    position: Vec3,
    target: Vec3,
    delta: u32,
)
    requires
        0 < camera.factor(delta) < UNIT,
    ensures
        approaches(
            position,
            camera.next_position(position, target, delta),
            camera.desired_position(target),
        ),
{
    let goal = camera.desired_position(target);
    let t = camera.factor(delta);
    lemma_lerp_approaches(position.x, goal.x, t);
    lemma_lerp_approaches(position.y, goal.y, t);
    lemma_lerp_approaches(position.z, goal.z, t);
}

/// A camera that already stands where it wants to stand stays there,
/// whatever the smoothing factor.
pub proof fn lemma_camera_rests(camera: ThirdPersonCamera, target: Vec3, delta: u32)
    ensures
        camera.next_position(camera.desired_position(target), target, delta)
            == camera.desired_position(target),
{
    let t = camera.factor(delta) as int;
    assert(scaled(0, t) == 0) by (nonlinear_arith);
}

/// Where the camera stands after the frames `deltas` while its target
/// rests at `target`.
pub open spec fn position_after(
    camera: ThirdPersonCamera,
    position: Vec3,
    target: Vec3,
    deltas: Seq<u32>,
) -> Vec3
    decreases deltas.len(),
{
    if deltas.len() == 0 {
        position
    } else {
        camera.next_position(
            position_after(camera, position, target, deltas.drop_last()),
            target,
            deltas.last(),
        )
    }
}

/// While the target rests and every frame's smoothing factor lies
/// strictly between zero and one, the camera closes in on the place where
/// it wants to stand: where it is after `j` frames lies, on every axis,
/// between where it was after any `i <= j` frames and that place. So the
/// distance never grows and the camera never swings past.
pub proof fn lemma_camera_converges(
    camera: ThirdPersonCamera,
    position: Vec3,
    target: Vec3,
    deltas: Seq<u32>,
    i: int,
    j: int,
)
    requires
        0 <= i <= j <= deltas.len(),
        forall|k: int| 0 <= k < deltas.len() ==> 0 < camera.factor(#[trigger] deltas[k]) < UNIT,
    ensures
        approaches(
            position_after(camera, position, target, deltas.take(i)),
            position_after(camera, position, target, deltas.take(j)),
            camera.desired_position(target),
        ),
    decreases j - i,
{
    if i < j {
        lemma_camera_converges(camera, position, target, deltas, i, j - 1);
        let shorter = deltas.take(j - 1);
        assert(deltas.take(j).drop_last() =~= shorter);
        assert(deltas.take(j).last() == deltas[j - 1]);
        lemma_camera_approaches(
            camera,
            position_after(camera, position, target, shorter),
            target,
            deltas[j - 1],
        );
    }
}

} // verus!
