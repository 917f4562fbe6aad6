use cheeseball::collision::{collision, CollisionEvent, Pickup};
use cheeseball::effect::{create_effect, remove_effect, Timed};
use cheeseball::fixed::Vec3;
use cheeseball::score::{scoreboard, Score};

/// What an engine would keep between frames.
struct World {
    score: Score,
    ball: u64,
    pickups: Vec<Pickup>,
    debris: Vec<Timed>,
    next_entity: u64,
}

impl World {
    fn new() -> World {
        World {
            score: Score::default(),
            ball: 1,
            pickups: vec![Pickup { entity: 2, position: Vec3::new(0, -1_000_000, -9_000_000) }],
            debris: Vec::new(),
            next_entity: 3,
        }
    }

    /// One frame: contacts, then the countdown of the debris that is already
    /// there, then the spawns that the contacts asked for.
    fn frame(&mut self, events: Vec<CollisionEvent>, delta: u32) -> (Vec<u64>, Vec<u64>) {
        let mut effects = Vec::new();
        let collected =
            collision(&events, &mut self.score, self.ball, &mut self.pickups, &mut effects);
        let expired = remove_effect(&mut self.debris, delta);
        for debris in create_effect(&effects) {
            self.debris.push(Timed { entity: self.next_entity, timer: debris.timer });
            self.next_entity += 1;
        }
        (collected, expired)
    }
}

#[test]
fn one_pickup_from_contact_to_the_last_debris() {
    let mut world = World::new();

    // the ball rolls toward the cheese: nothing happens yet
    for _ in 0..30 {
        let (collected, expired) = world.frame(Vec::new(), 16_667);
        assert!(collected.is_empty() && expired.is_empty());
    }
    assert_eq!(world.score.cheese, 0);
    assert_eq!(world.pickups.len(), 1);

    // contact
    let (collected, expired) = world.frame(vec![CollisionEvent::Started(2, 1)], 16_667);
    assert_eq!(collected, vec![2]);
    assert!(expired.is_empty());
    assert_eq!(world.score.cheese, 1);
    assert!(world.pickups.is_empty());
    assert_eq!(world.debris.len(), 32);
    assert_eq!(scoreboard(&world.score).0, "Cheese: 1");

    // the contact ends; the debris lives on for just under two seconds
    let (collected, _) = world.frame(vec![CollisionEvent::Stopped(2, 1)], 16_667);
    assert!(collected.is_empty());
    let mut passed: u64 = 16_667;
    while passed + 16_667 < 2_000_000 {
        let (_, expired) = world.frame(Vec::new(), 16_667);
        passed += 16_667;
        assert!(expired.is_empty());
        assert_eq!(world.debris.len(), 32);
    }

    // the frame in which two seconds are reached takes all of it
    let (_, expired) = world.frame(Vec::new(), 16_667);
    passed += 16_667;
    assert!(passed >= 2_000_000);
    assert_eq!(expired, (3..35).collect::<Vec<u64>>());
    assert!(world.debris.is_empty());

    // and nothing comes back
    for _ in 0..10 {
        let (collected, expired) = world.frame(vec![CollisionEvent::Started(1, 2)], 16_667);
        assert!(collected.is_empty() && expired.is_empty());
    }
    assert_eq!(world.score.cheese, 1);
    assert!(world.pickups.is_empty());
    assert!(world.debris.is_empty());
}

#[test]
fn two_bursts_run_out_one_after_the_other() {
    let mut world = World::new();
    world.pickups.push(Pickup { entity: 50, position: Vec3::new(1_000_000, -1_000_000, -9_000_000) });
    world.frame(vec![CollisionEvent::Started(1, 2)], 100_000);
    assert_eq!(world.debris.len(), 32);
    for _ in 0..5 {
        world.frame(Vec::new(), 100_000);
    }
    world.frame(vec![CollisionEvent::Started(50, 1)], 100_000);
    assert_eq!(world.score.cheese, 2);
    assert_eq!(world.debris.len(), 64);
    // the first burst has had 0.6 s, the second none
    for _ in 0..13 {
        let (_, expired) = world.frame(Vec::new(), 100_000);
        assert!(expired.is_empty());
    }
    let (_, expired) = world.frame(Vec::new(), 100_000);
    assert_eq!(expired.len(), 32);
    assert_eq!(world.debris.len(), 32);
    for _ in 0..5 {
        let (_, expired) = world.frame(Vec::new(), 100_000);
        assert!(expired.is_empty());
    }
    let (_, expired) = world.frame(Vec::new(), 100_000);
    assert_eq!(expired.len(), 32);
    assert!(world.debris.is_empty());
}
