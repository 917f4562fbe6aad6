use cheeseball::collision::{collide, collision, CollisionEvent, Pickup};
use cheeseball::effect::CreateEffectEvent;
use cheeseball::fixed::Vec3;
use cheeseball::score::Score;

const BALL: u64 = 7;

fn pickup(entity: u64, x: i64) -> Pickup {
    Pickup { entity, position: Vec3::new(x, -1_000_000, -9_000_000) }
}

fn request(x: i64) -> CreateEffectEvent {
    CreateEffectEvent(Vec3::new(x, -1_000_000, -9_000_000))
}

#[test]
fn ball_touching_a_pickup_consumes_it() {
    let mut score = Score::default();
    let mut pickups = vec![pickup(20, 0)];
    let mut effects = Vec::new();
    let events = vec![CollisionEvent::Started(BALL, 20)];
    let despawned = collision(&events, &mut score, BALL, &mut pickups, &mut effects);
    assert_eq!(despawned, vec![20]);
    assert!(pickups.is_empty());
    assert_eq!(score, Score { cheese: 1, level: 1 });
    assert_eq!(effects, vec![request(0)]);
}

#[test]
fn the_order_within_the_pair_does_not_matter() {
    let mut score = Score::default();
    let mut pickups = vec![pickup(20, 0)];
    let mut effects = Vec::new();
    let events = vec![CollisionEvent::Started(20, BALL)];
    let despawned = collision(&events, &mut score, BALL, &mut pickups, &mut effects);
    assert_eq!(despawned, vec![20]);
    assert!(pickups.is_empty());
    assert_eq!(score.cheese, 1);
    assert_eq!(effects, vec![request(0)]);
}

#[test]
fn ended_contacts_are_ignored() {
    let mut score = Score::default();
    let mut pickups = vec![pickup(20, 0)];
    let mut effects = Vec::new();
    let events = vec![CollisionEvent::Stopped(BALL, 20), CollisionEvent::Stopped(20, BALL)];
    let despawned = collision(&events, &mut score, BALL, &mut pickups, &mut effects);
    assert!(despawned.is_empty());
    assert_eq!(pickups, vec![pickup(20, 0)]);
    assert_eq!(score, Score::default());
    assert!(effects.is_empty());
}

#[test]
fn contacts_without_the_ball_are_ignored() {
    let mut score = Score::default();
    let mut pickups = vec![pickup(20, 0), pickup(21, 5)];
    let mut effects = Vec::new();
    let events = vec![CollisionEvent::Started(20, 21), CollisionEvent::Started(3, 20)];
    let despawned = collision(&events, &mut score, BALL, &mut pickups, &mut effects);
    assert!(despawned.is_empty());
    assert_eq!(pickups.len(), 2);
    assert_eq!(score.cheese, 0);
    assert!(effects.is_empty());
}

#[test]
fn ball_touching_something_else_is_ignored() {
    let mut score = Score::default();
    let mut pickups = vec![pickup(20, 0)];
    let mut effects = Vec::new();
    let events = vec![CollisionEvent::Started(BALL, 99), CollisionEvent::Started(1, BALL)];
    let despawned = collision(&events, &mut score, BALL, &mut pickups, &mut effects);
    assert!(despawned.is_empty());
    assert_eq!(pickups, vec![pickup(20, 0)]);
    assert_eq!(score.cheese, 0);
    assert!(effects.is_empty());
}

#[test]
fn no_events_change_nothing() {
    let mut score = Score { cheese: 4, level: 1 };
    let mut pickups = vec![pickup(20, 0)];
    let mut effects = vec![request(77)];
    let despawned = collision(&Vec::new(), &mut score, BALL, &mut pickups, &mut effects);
    assert!(despawned.is_empty());
    assert_eq!(pickups, vec![pickup(20, 0)]);
    assert_eq!(score, Score { cheese: 4, level: 1 });
    assert_eq!(effects, vec![request(77)]);
}

#[test]
fn a_pickup_reported_twice_counts_once() {
    let mut score = Score::default();
    let mut pickups = vec![pickup(20, 0)];
    let mut effects = Vec::new();
    let events = vec![CollisionEvent::Started(BALL, 20), CollisionEvent::Started(20, BALL)];
    let despawned = collision(&events, &mut score, BALL, &mut pickups, &mut effects);
    assert_eq!(despawned, vec![20]);
    assert!(pickups.is_empty());
    assert_eq!(score.cheese, 1);
    assert_eq!(effects, vec![request(0)]);
}

#[test]
fn a_pickup_reported_many_times_among_others_counts_once() {
    let mut score = Score { cheese: 3, level: 1 };
    let mut pickups = vec![pickup(20, 0), pickup(21, 5), pickup(22, 9)];
    let mut effects = Vec::new();
    let events = vec![
        CollisionEvent::Started(BALL, 21),
        CollisionEvent::Started(BALL, 20),
        CollisionEvent::Started(21, BALL),
        CollisionEvent::Stopped(BALL, 21),
        CollisionEvent::Started(BALL, 21),
        CollisionEvent::Started(20, BALL),
    ];
    let despawned = collision(&events, &mut score, BALL, &mut pickups, &mut effects);
    assert_eq!(despawned, vec![21, 20]);
    assert_eq!(pickups, vec![pickup(22, 9)]);
    assert_eq!(score.cheese, 5);
    assert_eq!(effects, vec![request(5), request(0)]);
}

#[test]
fn one_request_and_one_removal_for_each_point() {
    let mut score = Score::default();
    let mut pickups = vec![pickup(20, 0), pickup(21, 5), pickup(22, 9), pickup(23, 11)];
    let mut effects = Vec::new();
    let events = vec![
        CollisionEvent::Started(BALL, 23),
        CollisionEvent::Started(23, BALL),
        CollisionEvent::Started(BALL, 20),
        CollisionEvent::Started(22, 21),
        CollisionEvent::Started(BALL, 23),
    ];
    let despawned = collision(&events, &mut score, BALL, &mut pickups, &mut effects);
    assert_eq!(score.cheese, 2);
    assert_eq!(despawned.len(), 2);
    assert_eq!(effects.len(), 2);
    assert_eq!(pickups.len(), 2);
}

#[test]
fn distinct_pickups_count_once_each() {
    let mut score = Score { cheese: 5, level: 1 };
    let mut pickups = vec![pickup(20, 0), pickup(21, 5), pickup(22, 9)];
    let mut effects = Vec::new();
    let events = vec![
        CollisionEvent::Started(BALL, 22),
        CollisionEvent::Started(3, 4),
        CollisionEvent::Started(20, BALL),
        CollisionEvent::Stopped(BALL, 21),
    ];
    collision(&events, &mut score, BALL, &mut pickups, &mut effects);
    assert_eq!(score.cheese, 7);
    assert_eq!(pickups, vec![pickup(21, 5)]);
}

#[test]
fn pickups_go_in_the_order_of_the_events() {
    let mut score = Score { cheese: 10, level: 1 };
    let mut pickups = vec![pickup(20, 1), pickup(21, 2), pickup(22, 3), pickup(23, 4)];
    let mut effects = vec![request(77)];
    let events = vec![
        CollisionEvent::Started(BALL, 22),
        CollisionEvent::Stopped(BALL, 21),
        CollisionEvent::Started(20, BALL),
        CollisionEvent::Started(20, 23),
    ];
    let despawned = collision(&events, &mut score, BALL, &mut pickups, &mut effects);
    assert_eq!(despawned, vec![22, 20]);
    assert_eq!(pickups, vec![pickup(21, 2), pickup(23, 4)]);
    assert_eq!(score, Score { cheese: 12, level: 1 });
    assert_eq!(effects, vec![request(77), request(3), request(1)]);
}

#[test]
fn a_consumed_pickup_is_unknown_in_the_next_frame() {
    let mut score = Score::default();
    let mut pickups = vec![pickup(20, 0), pickup(21, 5)];
    let mut effects = Vec::new();
    let events = vec![CollisionEvent::Started(BALL, 20)];
    collision(&events, &mut score, BALL, &mut pickups, &mut effects);
    assert_eq!(pickups, vec![pickup(21, 5)]);
    let again = collision(&events, &mut score, BALL, &mut pickups, &mut effects);
    assert!(again.is_empty());
    assert_eq!(pickups, vec![pickup(21, 5)]);
    assert_eq!(score.cheese, 1);
    assert_eq!(effects.len(), 1);
}

#[test]
fn the_burst_is_asked_for_where_the_pickup_was() {
    let mut score = Score::default();
    let place = Vec3::new(123, -456, 789);
    let mut pickups = vec![Pickup { entity: 20, position: place }];
    let mut effects = Vec::new();
    let events = vec![CollisionEvent::Started(BALL, 20)];
    collision(&events, &mut score, BALL, &mut pickups, &mut effects);
    assert_eq!(effects, vec![CreateEffectEvent(place)]);
}

#[test]
fn the_level_never_moves() {
    let mut score = Score { cheese: 0, level: 3 };
    let mut pickups = vec![pickup(20, 0), pickup(21, 0)];
    let mut effects = Vec::new();
    let events = vec![CollisionEvent::Started(BALL, 20), CollisionEvent::Started(BALL, 21)];
    collision(&events, &mut score, BALL, &mut pickups, &mut effects);
    assert_eq!(score, Score { cheese: 2, level: 3 });
}

#[test]
fn one_event_takes_the_pickup_it_names() {
    let mut score = Score::default();
    let mut pickups = vec![pickup(20, 1), pickup(21, 2), pickup(22, 3)];
    let mut effects = Vec::new();
    let mut despawned = vec![5];
    collide(
        CollisionEvent::Started(21, BALL),
        &mut score,
        BALL,
        &mut pickups,
        &mut effects,
        &mut despawned,
    );
    assert_eq!(despawned, vec![5, 21]);
    assert_eq!(pickups, vec![pickup(20, 1), pickup(22, 3)]);
    assert_eq!(score.cheese, 1);
    assert_eq!(effects, vec![request(2)]);
}

#[test]
fn the_same_event_again_finds_the_pickup_gone() {
    let mut score = Score::default();
    let mut pickups = vec![pickup(20, 1), pickup(21, 2)];
    let mut effects = Vec::new();
    let mut despawned = Vec::new();
    for _ in 0..3 {
        collide(
            CollisionEvent::Started(BALL, 20),
            &mut score,
            BALL,
            &mut pickups,
            &mut effects,
            &mut despawned,
        );
    }
    assert_eq!(despawned, vec![20]);
    assert_eq!(pickups, vec![pickup(21, 2)]);
    assert_eq!(score.cheese, 1);
    assert_eq!(effects, vec![request(1)]);
}

#[test]
fn one_ended_contact_takes_nothing() {
    let mut score = Score::default();
    let mut pickups = vec![pickup(20, 1)];
    let mut effects = Vec::new();
    let mut despawned = Vec::new();
    collide(
        CollisionEvent::Stopped(20, BALL),
        &mut score,
        BALL,
        &mut pickups,
        &mut effects,
        &mut despawned,
    );
    assert!(despawned.is_empty());
    assert_eq!(pickups, vec![pickup(20, 1)]);
    assert_eq!(score.cheese, 0);
    assert!(effects.is_empty());
}

#[test]
fn one_contact_without_the_ball_takes_nothing() {
    let mut score = Score::default();
    let mut pickups = vec![pickup(20, 1)];
    let mut effects = Vec::new();
    let mut despawned = Vec::new();
    collide(
        CollisionEvent::Started(20, 3),
        &mut score,
        BALL,
        &mut pickups,
        &mut effects,
        &mut despawned,
    );
    assert!(despawned.is_empty());
    assert_eq!(pickups, vec![pickup(20, 1)]);
    assert_eq!(score.cheese, 0);
    assert!(effects.is_empty());
}

#[test]
fn events_that_name_what_is_gone_change_nothing() {
    let mut score = Score { cheese: 1, level: 1 };
    let mut pickups = vec![pickup(21, 5)];
    let mut effects = Vec::new();
    let events = vec![
        CollisionEvent::Started(BALL, 20),
        CollisionEvent::Started(20, BALL),
        CollisionEvent::Stopped(BALL, 20),
    ];
    let despawned = collision(&events, &mut score, BALL, &mut pickups, &mut effects);
    assert!(despawned.is_empty());
    assert_eq!(pickups, vec![pickup(21, 5)]);
    assert_eq!(score, Score { cheese: 1, level: 1 });
    assert!(effects.is_empty());
}
