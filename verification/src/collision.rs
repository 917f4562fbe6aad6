//! Collecting pickups: which contacts of a frame collect which pickups.
use vstd::prelude::*;
use vstd::seq_lib::{lemma_multiset_commutative, to_multiset_build};
use crate::effect::CreateEffectEvent;
use crate::fixed::Vec3;
use crate::score::Score;

verus! {

/// A contact between two bodies that began or ended in this frame.
#[derive(Clone, Copy, Debug, PartialEq, Eq, Structural)]
pub enum CollisionEvent {
    Started(u64, u64),
    Stopped(u64, u64),
}

/// A pickup that lies on the platform, with its place in this frame.
#[derive(Clone, Copy, Debug, PartialEq, Eq, Structural)]
pub struct Pickup {
    pub entity: u64,
    pub position: Vec3,
}

/// The event reports that `ball` and `pickup` have begun to touch.
pub open spec fn touches(e: CollisionEvent, ball: u64, pickup: u64) -> bool {
    match e {
        CollisionEvent::Started(a, b) => (a == ball || b == ball) && (a == pickup || b == pickup),
        CollisionEvent::Stopped(_, _) => false,
    }
}

/// The pickups that the event makes the ball touch.
pub open spec fn touched_by(e: CollisionEvent, ball: u64) -> spec_fn(Pickup) -> bool {
    |p: Pickup| touches(e, ball, p.entity)
}

/// The pickups that the event leaves alone.
pub open spec fn spared_by(e: CollisionEvent, ball: u64) -> spec_fn(Pickup) -> bool {
    |p: Pickup| !touches(e, ball, p.entity)
}

/// Some event of the frame makes the ball touch `pickup`.
pub open spec fn hit(events: Seq<CollisionEvent>, ball: u64, pickup: u64) -> bool {
    exists|k: int| 0 <= k < events.len() && touches(#[trigger] events[k], ball, pickup)
}

/// The pickups that the ball touches in the frame.
pub open spec fn hit_by(events: Seq<CollisionEvent>, ball: u64) -> spec_fn(Pickup) -> bool {
    |p: Pickup| hit(events, ball, p.entity)
}

/// The pickups that the ball does not touch in the frame.
pub open spec fn missed_by(events: Seq<CollisionEvent>, ball: u64) -> spec_fn(Pickup) -> bool {
    |p: Pickup| !hit(events, ball, p.entity)
}

/// The pickups that an event is the first of the frame to touch: touched
/// by `e`, and by none of the events `earlier`.
pub open spec fn first_touched_by(earlier: Seq<CollisionEvent>, e: CollisionEvent, ball: u64) -> spec_fn(
    Pickup,
) -> bool {
    |p: Pickup| !hit(earlier, ball, p.entity) && touches(e, ball, p.entity)
}

/// The pickups that the frame collects, in the order in which they go:
/// each at the first event that makes the ball touch it, and within one
/// event in the order of the pickup list. A later event that names a
/// pickup again finds it gone.
pub open spec fn consumed(events: Seq<CollisionEvent>, ball: u64, pickups: Seq<Pickup>) -> Seq<
    Pickup,
>
    decreases events.len(),
{
    if events.len() == 0 {
        Seq::empty()
    } else {
        consumed(events.drop_last(), ball, pickups) + pickups.filter(
            first_touched_by(events.drop_last(), events.last(), ball),
        )
    }
}

/// The handle of a pickup.
pub open spec fn entity_of() -> spec_fn(Pickup) -> u64 {
    |p: Pickup| p.entity
}

/// The burst request for a collected pickup: at the place where it was.
pub open spec fn request_for() -> spec_fn(Pickup) -> CreateEffectEvent {
    |p: Pickup| CreateEffectEvent(p.position)
}

/// No two pickups of the list share a handle.
pub open spec fn distinct(pickups: Seq<Pickup>) -> bool {
    forall|i: int, j: int|
        0 <= i < j < pickups.len() ==> (#[trigger] pickups[i]).entity != (
        #[trigger] pickups[j]).entity
}

/// The list holds a pickup with the handle `entity`.
pub open spec fn listed(pickups: Seq<Pickup>, entity: u64) -> bool {
    exists|i: int| 0 <= i < pickups.len() && (#[trigger] pickups[i]).entity == entity
}

/// A sequence splits into the elements that meet a predicate and those
/// that meet its negation.
pub proof fn lemma_filter_split<A>(s: Seq<A>, p: spec_fn(A) -> bool, q: spec_fn(A) -> bool)
    requires
        forall|x: A| #[trigger] q(x) == !p(x),
    ensures
        s.filter(p).len() + s.filter(q).len() == s.len(),
    decreases s.len(),
{
    reveal(Seq::filter);
    if s.len() > 0 {
        lemma_filter_split(s.drop_last(), p, q);
    }
}

/// Filtering twice is filtering by the conjunction.
pub proof fn lemma_filter_twice<A>(
    s: Seq<A>,
    p: spec_fn(A) -> bool,
    q: spec_fn(A) -> bool,
    both: spec_fn(A) -> bool,
)
    requires
        forall|x: A| #[trigger] both(x) == (p(x) && q(x)),
    ensures
        s.filter(p).filter(q) == s.filter(both),
    decreases s.len(),
{
    reveal(Seq::filter);
    if s.len() > 0 {
        let front = s.drop_last();
        lemma_filter_twice(front, p, q, both);
        if p(s.last()) {
            front.filter(p).lemma_filter_push(s.last(), q);
        }
    }
}

/// A predicate that holds of no element filters everything out, and one
/// that holds of every element keeps the sequence as it is.
pub proof fn lemma_filter_trivial<A>(s: Seq<A>, p: spec_fn(A) -> bool)
    ensures
        (forall|i: int| 0 <= i < s.len() ==> !p(#[trigger] s[i])) ==> s.filter(p) == Seq::<
            A,
        >::empty(),
        (forall|i: int| 0 <= i < s.len() ==> p(#[trigger] s[i])) ==> s.filter(p) == s,
    decreases s.len(),
{
    reveal(Seq::filter);
    if s.len() > 0 {
        let front = s.drop_last();
        lemma_filter_trivial(front, p);
        assert(forall|i: int| 0 <= i < front.len() ==> front[i] == s[i]);
        if forall|i: int| 0 <= i < s.len() ==> p(#[trigger] s[i]) {
            assert(front.push(s.last()) =~= s);
        }
    }
}

/// Where no element meets both of two predicates, the elements that meet
/// one of them are those that meet the first together with those that meet
/// the second, each as often as it stands in the sequence.
pub proof fn lemma_filter_either<A>(
    s: Seq<A>,
    p: spec_fn(A) -> bool,
    q: spec_fn(A) -> bool,
    either: spec_fn(A) -> bool,
)
    requires
        forall|i: int| 0 <= i < s.len() ==> !(p(#[trigger] s[i]) && q(s[i])),
        forall|i: int| 0 <= i < s.len() ==> either(#[trigger] s[i]) == (p(s[i]) || q(s[i])),
    ensures
        s.filter(either).to_multiset() == s.filter(p).to_multiset().add(s.filter(q).to_multiset()),
    decreases s.len(),
{
    broadcast use vstd::multiset::group_multiset_axioms;

    reveal(Seq::filter);
    let lhs = s.filter(either).to_multiset();
    let rhs = s.filter(p).to_multiset().add(s.filter(q).to_multiset());
    if s.len() == 0 {
        s.filter(either).to_multiset_ensures();
        s.filter(p).to_multiset_ensures();
        s.filter(q).to_multiset_ensures();
        assert(lhs =~= rhs);
    } else {
        let front = s.drop_last();
        let x = s.last();
        assert(forall|i: int| 0 <= i < front.len() ==> front[i] == s[i]);
        lemma_filter_either(front, p, q, either);
        to_multiset_build(front.filter(either), x);
        to_multiset_build(front.filter(p), x);
        to_multiset_build(front.filter(q), x);
        assert(lhs =~= rhs);
    }
}

/// Filtering keeps no element more often than the sequence holds it.
pub proof fn lemma_filter_count<A>(s: Seq<A>, p: spec_fn(A) -> bool, x: A)
    ensures
        s.filter(p).to_multiset().count(x) <= s.to_multiset().count(x),
    decreases s.len(),
{
    broadcast use vstd::multiset::group_multiset_axioms;

    reveal(Seq::filter);
    if s.len() > 0 {
        let front = s.drop_last();
        lemma_filter_count(front, p, x);
        assert(front.push(s.last()) =~= s);
        to_multiset_build(front, s.last());
        to_multiset_build(front.filter(p), s.last());
    }
}

/// The ball touches a pickup in `events` extended by `e` exactly if it
/// does so in `events` or by `e`.
pub proof fn lemma_hit_push(events: Seq<CollisionEvent>, e: CollisionEvent, ball: u64, pickup: u64)
    ensures
        hit(events.push(e), ball, pickup) == (hit(events, ball, pickup) || touches(
            e,
            ball,
            pickup,
        )),
{
    let longer = events.push(e);
    if hit(events, ball, pickup) {
        let k = choose|k: int| 0 <= k < events.len() && touches(#[trigger] events[k], ball, pickup);
        assert(touches(longer[k], ball, pickup));
    }
    if touches(e, ball, pickup) {
        assert(touches(longer[events.len() as int], ball, pickup));
    }
    if hit(longer, ball, pickup) {
        let k = choose|k: int| 0 <= k < longer.len() && touches(#[trigger] longer[k], ball, pickup);
        if k < events.len() {
            assert(touches(events[k], ball, pickup));
        }
    }
}

/// Handles one event: every pickup of the list that it makes the ball
/// touch leaves the list, counts one point, and is reported, in list
/// order, for removal and for one burst at its place.
pub fn collide(
    e: CollisionEvent,
    score: &mut Score,
    ball: u64,
    pickups: &mut Vec<Pickup>,
    effects: &mut Vec<CreateEffectEvent>,
    despawned: &mut Vec<u64>,
)
    requires
        old(score).cheese + old(pickups)@.len() <= u64::MAX,
    ensures
        final(pickups)@ == old(pickups)@.filter(spared_by(e, ball)),
        final(despawned)@ == old(despawned)@ + old(pickups)@.filter(
            touched_by(e, ball),
        ).map_values(entity_of()),
        final(effects)@ == old(effects)@ + old(pickups)@.filter(touched_by(e, ball)).map_values(
            request_for(),
        ),
        final(score).cheese == old(score).cheese + old(pickups)@.filter(touched_by(e, ball)).len(),
        final(score).level == old(score).level,
{
    let ghost start = pickups@;
    let ghost queue = effects@;
    let ghost pending = despawned@;
    match e {
        CollisionEvent::Started(a, b) => {
            if a == ball || b == ball {
                let mut kept: Vec<Pickup> = Vec::new();
                let mut i: usize = 0;
                proof {
                    assert(start.take(0) =~= Seq::<Pickup>::empty());
                    assert(start.take(0).filter(spared_by(e, ball)) =~= Seq::<Pickup>::empty());
                    assert(start.take(0).filter(touched_by(e, ball)) =~= Seq::<Pickup>::empty());
                    assert(despawned@ =~= pending + Seq::<Pickup>::empty().map_values(entity_of()));
                    assert(effects@ =~= queue + Seq::<Pickup>::empty().map_values(request_for()));
                }
                while i < pickups.len()
                    invariant
                        0 <= i <= start.len(),
                        pickups@ == start,
                        e == CollisionEvent::Started(a, b),
                        a == ball || b == ball,
                        old(score).cheese + start.len() <= u64::MAX,
                        kept@ == start.take(i as int).filter(spared_by(e, ball)),
                        despawned@ == pending + start.take(i as int).filter(
                            touched_by(e, ball),
                        ).map_values(entity_of()),
                        effects@ == queue + start.take(i as int).filter(
                            touched_by(e, ball),
                        ).map_values(request_for()),
                        score.cheese == old(score).cheese + start.take(i as int).filter(
                            touched_by(e, ball),
                        ).len(),
                        score.level == old(score).level,
                    decreases start.len() - i,
                {
                    let p = pickups[i];
                    proof {
                        let before = start.take(i as int);
                        start.lemma_take_succ_push(i as int);
                        before.lemma_filter_push(p, spared_by(e, ball));
                        before.lemma_filter_push(p, touched_by(e, ball));
                        before.filter(touched_by(e, ball)).lemma_push_map_commute(entity_of(), p);
                        before.filter(touched_by(e, ball)).lemma_push_map_commute(request_for(), p);
                        before.lemma_filter_len(touched_by(e, ball));
                    }
                    if a == p.entity || b == p.entity {
                        despawned.push(p.entity);
                        score.cheese = score.cheese + 1;
                        effects.push(CreateEffectEvent(p.position));
                        proof {
                            let took = start.take(i as int).filter(touched_by(e, ball));
                            assert(despawned@ =~= pending + took.push(p).map_values(entity_of()));
                            assert(effects@ =~= queue + took.push(p).map_values(request_for()));
                        }
                    } else {
                        kept.push(p);
                    }
                    i = i + 1;
                }
                proof {
                    start.lemma_take_len();
                }
                *pickups = kept;
            } else {
                proof {
                    lemma_filter_trivial(start, spared_by(e, ball));
                    lemma_filter_trivial(start, touched_by(e, ball));
                    assert(despawned@ =~= pending + Seq::<Pickup>::empty().map_values(entity_of()));
                    assert(effects@ =~= queue + Seq::<Pickup>::empty().map_values(request_for()));
                }
            }
        },
        CollisionEvent::Stopped(_, _) => {
            proof {
                lemma_filter_trivial(start, spared_by(e, ball));
                lemma_filter_trivial(start, touched_by(e, ball));
                assert(despawned@ =~= pending + Seq::<Pickup>::empty().map_values(entity_of()));
                assert(effects@ =~= queue + Seq::<Pickup>::empty().map_values(request_for()));
            }
        },
    }
}

/// One more event collects, of the pickups that no earlier event has
/// touched, those that it makes the ball touch; the others of them stay.
pub proof fn lemma_consumed_push(
    events: Seq<CollisionEvent>,
    e: CollisionEvent,
    ball: u64,
    pickups: Seq<Pickup>,
)
    ensures
        consumed(events.push(e), ball, pickups) == consumed(events, ball, pickups)
            + pickups.filter(missed_by(events, ball)).filter(touched_by(e, ball)),
        pickups.filter(missed_by(events.push(e), ball)) == pickups.filter(
            missed_by(events, ball),
        ).filter(spared_by(e, ball)),
{
    assert(events.push(e).drop_last() =~= events);
    assert forall|p: Pickup| #[trigger]
        missed_by(events.push(e), ball)(p) == (missed_by(events, ball)(p) && spared_by(e, ball)(
            p,
        )) by {
        lemma_hit_push(events, e, ball, p.entity);
    }
    lemma_filter_twice(
        pickups,
        missed_by(events, ball),
        spared_by(e, ball),
        missed_by(events.push(e), ball),
    );
    lemma_filter_twice(
        pickups,
        missed_by(events, ball),
        touched_by(e, ball),
        first_touched_by(events, e, ball),
    );
}

/// Handles the contacts of one frame in the order in which the engine
/// delivered them. A pickup that the ball has begun to touch leaves
/// `pickups` at the first event that says so, and nothing later in the
/// frame can count it again. For each such pickup, once, the score grows
/// by one, a burst is requested at the pickup's place, and its handle is
/// returned so that the engine can destroy it with all that hangs on it.
/// Contacts that ended, and contacts without the ball or without a listed
/// pickup, change nothing.
pub fn collision(
    events: &Vec<CollisionEvent>,
    score: &mut Score,
    ball: u64,
    pickups: &mut Vec<Pickup>,
    effects: &mut Vec<CreateEffectEvent>,
) -> (despawned: Vec<u64>)
    requires
        old(score).cheese + old(pickups)@.len() <= u64::MAX,
    ensures
        final(pickups)@ == old(pickups)@.filter(missed_by(events@, ball)),
        despawned@ == consumed(events@, ball, old(pickups)@).map_values(entity_of()),
        final(effects)@ == old(effects)@ + consumed(events@, ball, old(pickups)@).map_values(
            request_for(),
        ),
        final(score).cheese == old(score).cheese + old(pickups)@.filter(hit_by(events@, ball)).len(),
        despawned@.len() == old(pickups)@.filter(hit_by(events@, ball)).len(),
        final(effects)@.len() == old(effects)@.len() + old(pickups)@.filter(
            hit_by(events@, ball),
        ).len(),
        final(score).level == old(score).level,
{
    let ghost start = pickups@;
    let ghost queue = effects@;
    let mut despawned: Vec<u64> = Vec::new();
    let mut k: usize = 0;
    proof {
        assert(events@.take(0) =~= Seq::<CollisionEvent>::empty());
        lemma_filter_trivial(start, missed_by(events@.take(0), ball));
        assert(despawned@ =~= consumed(events@.take(0), ball, start).map_values(entity_of()));
        assert(effects@ =~= queue + consumed(events@.take(0), ball, start).map_values(
            request_for(),
        ));
    }
    while k < events.len()
        invariant
            0 <= k <= events@.len(),
            old(score).cheese + start.len() <= u64::MAX,
            pickups@ == start.filter(missed_by(events@.take(k as int), ball)),
            despawned@ == consumed(events@.take(k as int), ball, start).map_values(entity_of()),
            effects@ == queue + consumed(events@.take(k as int), ball, start).map_values(
                request_for(),
            ),
            score.cheese == old(score).cheese + consumed(events@.take(k as int), ball, start).len(),
            consumed(events@.take(k as int), ball, start).len() + pickups@.len() == start.len(),
            score.level == old(score).level,
        decreases events@.len() - k,
    {
        let e = events[k];
        proof {
            let seen = events@.take(k as int);
            events@.lemma_take_succ_push(k as int);
            lemma_consumed_push(seen, e, ball, start);
            lemma_filter_split(pickups@, touched_by(e, ball), spared_by(e, ball));
            let gone = consumed(seen, ball, start);
            let more = pickups@.filter(touched_by(e, ball));
            assert((gone + more).map_values(entity_of()) =~= gone.map_values(entity_of())
                + more.map_values(entity_of()));
            assert((gone + more).map_values(request_for()) =~= gone.map_values(request_for())
                + more.map_values(request_for()));
            assert(queue + gone.map_values(request_for()) + more.map_values(request_for())
                =~= queue + (gone.map_values(request_for()) + more.map_values(request_for())));
        }
        collide(e, score, ball, pickups, effects, &mut despawned);
        k = k + 1;
    }
    proof {
        events@.lemma_take_len();
        lemma_filter_split(start, hit_by(events@, ball), missed_by(events@, ball));
    }
    despawned
}

/// Every pickup that the ball touches in the frame is collected exactly
/// once: the collected pickups are the touched pickups of the list, each
/// as often as the list holds it, however many events name it. So there
/// are as many removals and burst requests as pickups touched.
pub proof fn lemma_collected_once(events: Seq<CollisionEvent>, ball: u64, pickups: Seq<Pickup>)
    ensures
        consumed(events, ball, pickups).to_multiset() == pickups.filter(
            hit_by(events, ball),
        ).to_multiset(),
        consumed(events, ball, pickups).len() == pickups.filter(hit_by(events, ball)).len(),
    decreases events.len(),
{
    broadcast use vstd::multiset::group_multiset_axioms;

    let all = consumed(events, ball, pickups);
    let touched = pickups.filter(hit_by(events, ball));
    if events.len() == 0 {
        lemma_filter_trivial(pickups, hit_by(events, ball));
        assert(all.to_multiset() =~= touched.to_multiset());
    } else {
        let front = events.drop_last();
        let e = events.last();
        let now = pickups.filter(first_touched_by(front, e, ball));
        lemma_collected_once(front, ball, pickups);
        assert(front.push(e) =~= events);
        assert forall|i: int| 0 <= i < pickups.len() implies !(hit_by(front, ball)(
            #[trigger] pickups[i],
        ) && first_touched_by(front, e, ball)(pickups[i])) && hit_by(events, ball)(pickups[i]) == (
        hit_by(front, ball)(pickups[i]) || first_touched_by(front, e, ball)(pickups[i])) by {
            lemma_hit_push(front, e, ball, pickups[i].entity);
        }
        lemma_filter_either(
            pickups,
            hit_by(front, ball),
            first_touched_by(front, e, ball),
            hit_by(events, ball),
        );
        lemma_multiset_commutative(consumed(front, ball, pickups), now);
        assert(all.to_multiset() =~= touched.to_multiset());
    }
    all.to_multiset_ensures();
    touched.to_multiset_ensures();
}

/// In a list without shared handles no handle is reported twice, and no
/// place gets a second burst for the same pickup.
pub proof fn lemma_reported_once(events: Seq<CollisionEvent>, ball: u64, pickups: Seq<Pickup>)
    requires
        distinct(pickups),
    ensures
        consumed(events, ball, pickups).no_duplicates(),
        consumed(events, ball, pickups).map_values(entity_of()).no_duplicates(),
{
    broadcast use vstd::multiset::group_multiset_axioms;

    let all = consumed(events, ball, pickups);
    let touched = pickups.filter(hit_by(events, ball));
    let handles = all.map_values(entity_of());
    lemma_collected_once(events, ball, pickups);
    assert(pickups.no_duplicates());
    pickups.lemma_multiset_has_no_duplicates();
    assert forall|x: Pickup| all.to_multiset().contains(x) implies all.to_multiset().count(x)
        == 1 by {
        lemma_filter_count(pickups, hit_by(events, ball), x);
    }
    all.lemma_multiset_has_no_duplicates_conv();
    all.to_multiset_ensures();
    touched.to_multiset_ensures();
    pickups.to_multiset_ensures();
    assert forall|i: int, j: int| 0 <= i < handles.len() && 0 <= j < handles.len() && i
        != j implies handles[i] != handles[j] by {
        if handles[i] == handles[j] {
            assert(all.contains(all[i]) && all.contains(all[j]));
            lemma_filter_count(pickups, hit_by(events, ball), all[i]);
            lemma_filter_count(pickups, hit_by(events, ball), all[j]);
            assert(pickups.contains(all[i]) && pickups.contains(all[j]));
            let a = choose|a: int| 0 <= a < pickups.len() && pickups[a] == all[i];
            let b = choose|b: int| 0 <= b < pickups.len() && pickups[b] == all[j];
            assert(pickups[a].entity == pickups[b].entity);
            assert(a == b);
            assert(all[i] == all[j]);
        }
    }
}

/// A handle is reported for removal exactly if the list holds a pickup of
/// that handle and the ball touches it in the frame; and then the list
/// holds no such pickup afterwards. A handle that the list does not hold
/// is neither reported nor brought into the list, whatever the events say.
pub proof fn lemma_collected_report(
    events: Seq<CollisionEvent>,
    ball: u64,
    pickups: Seq<Pickup>,
    entity: u64,
)
    ensures
        consumed(events, ball, pickups).map_values(entity_of()).contains(entity) <==> listed(
            pickups,
            entity,
        ) && hit(events, ball, entity),
        listed(pickups.filter(missed_by(events, ball)), entity) <==> listed(pickups, entity)
            && !hit(events, ball, entity),
{
    broadcast use vstd::multiset::group_multiset_axioms, Seq::lemma_filter_pred;

    let all = consumed(events, ball, pickups);
    let handles = all.map_values(entity_of());
    let touched = pickups.filter(hit_by(events, ball));
    let left = pickups.filter(missed_by(events, ball));
    lemma_collected_once(events, ball, pickups);
    all.to_multiset_ensures();
    touched.to_multiset_ensures();
    if handles.contains(entity) {
        let j = choose|j: int| 0 <= j < handles.len() && handles[j] == entity;
        assert(all.contains(all[j]));
        assert(touched.to_multiset().count(all[j]) > 0);
        assert(touched.contains(all[j]));
        pickups.lemma_filter_contains_rev(hit_by(events, ball), all[j]);
        let i = choose|i: int| 0 <= i < pickups.len() && pickups[i] == all[j];
        assert(pickups[i].entity == entity);
        let k = choose|k: int| 0 <= k < touched.len() && touched[k] == all[j];
        assert(hit_by(events, ball)(touched[k]));
    }
    if listed(pickups, entity) && hit(events, ball, entity) {
        let i = choose|i: int| 0 <= i < pickups.len() && (#[trigger] pickups[i]).entity == entity;
        pickups.lemma_filter_contains(hit_by(events, ball), i);
        assert(all.to_multiset().count(pickups[i]) > 0);
        assert(all.contains(pickups[i]));
        let j = choose|j: int| 0 <= j < all.len() && all[j] == pickups[i];
        assert(handles[j] == entity);
    }
    if listed(left, entity) {
        let j = choose|j: int| 0 <= j < left.len() && (#[trigger] left[j]).entity == entity;
        assert(missed_by(events, ball)(left[j]));
        assert(left.contains(left[j]));
        pickups.lemma_filter_contains_rev(missed_by(events, ball), left[j]);
        let i = choose|i: int| 0 <= i < pickups.len() && pickups[i] == left[j];
        assert(pickups[i].entity == entity);
    }
    if listed(pickups, entity) && !hit(events, ball, entity) {
        let i = choose|i: int| 0 <= i < pickups.len() && (#[trigger] pickups[i]).entity == entity;
        pickups.lemma_filter_contains(missed_by(events, ball), i);
        let j = choose|j: int| 0 <= j < left.len() && left[j] == pickups[i];
        assert(left[j].entity == entity);
    }
}

/// Events that make the ball touch no pickup of the list change nothing:
/// no pickup is collected, none is counted, and the list stays as it is.
/// Such are all events that name only what is no longer there.
pub proof fn lemma_strangers_ignored(events: Seq<CollisionEvent>, ball: u64, pickups: Seq<Pickup>)
    requires
        forall|i: int|
            0 <= i < pickups.len() ==> !hit(events, ball, (#[trigger] pickups[i]).entity),
    ensures
        consumed(events, ball, pickups) == Seq::<Pickup>::empty(),
        pickups.filter(hit_by(events, ball)).len() == 0,
        pickups.filter(missed_by(events, ball)) == pickups,
{
    lemma_filter_trivial(pickups, hit_by(events, ball));
    lemma_filter_trivial(pickups, missed_by(events, ball));
    lemma_collected_once(events, ball, pickups);
    assert(consumed(events, ball, pickups) =~= Seq::<Pickup>::empty());
}

/// The pickup list after the frames whose contacts `frames` holds, one
/// entry per frame.
pub open spec fn left_after(pickups: Seq<Pickup>, ball: u64, frames: Seq<Seq<CollisionEvent>>) -> Seq<
    Pickup,
>
    decreases frames.len(),
{
    if frames.len() == 0 {
        pickups
    } else {
        left_after(pickups, ball, frames.drop_last()).filter(missed_by(frames.last(), ball))
    }
}

/// No frame brings a pickup into the list.
pub proof fn lemma_none_appears(
    pickups: Seq<Pickup>,
    ball: u64,
    frames: Seq<Seq<CollisionEvent>>,
    entity: u64,
)
    requires
        listed(left_after(pickups, ball, frames), entity),
    ensures
        listed(pickups, entity),
    decreases frames.len(),
{
    if frames.len() > 0 {
        let before = left_after(pickups, ball, frames.drop_last());
        let after = left_after(pickups, ball, frames);
        let j = choose|j: int| 0 <= j < after.len() && (#[trigger] after[j]).entity == entity;
        assert(after.contains(after[j]));
        before.lemma_filter_contains_rev(missed_by(frames.last(), ball), after[j]);
        let i = choose|i: int| 0 <= i < before.len() && before[i] == after[j];
        assert(before[i].entity == entity);
        lemma_none_appears(pickups, ball, frames.drop_last(), entity);
    }
}

/// A collected pickup stays away. If the ball has begun to touch `entity`
/// in frame `i`, the pickup list holds no such pickup after that frame,
/// nor after any later one.
pub proof fn lemma_collected_stays_absent(
    pickups: Seq<Pickup>,
    ball: u64,
    frames: Seq<Seq<CollisionEvent>>,
    i: int,
    n: int,
    entity: u64,
)
    requires
        0 <= i < n <= frames.len(),
        hit(frames[i], ball, entity),
    ensures
        !listed(left_after(pickups, ball, frames.take(n)), entity),
    decreases n - i,
{
    broadcast use Seq::lemma_filter_pred;

    let until = frames.take(n);
    let before = left_after(pickups, ball, until.drop_last());
    let after = left_after(pickups, ball, until);
    assert(until.drop_last() =~= frames.take(n - 1));
    assert(until.last() == frames[n - 1]);
    if listed(after, entity) {
        let j = choose|j: int| 0 <= j < after.len() && (#[trigger] after[j]).entity == entity;
        if n == i + 1 {
            assert(missed_by(frames[i], ball)(after[j]));
        } else {
            lemma_collected_stays_absent(pickups, ball, frames, i, n - 1, entity);
            assert(after.contains(after[j]));
            before.lemma_filter_contains_rev(missed_by(frames[n - 1], ball), after[j]);
            let k = choose|k: int| 0 <= k < before.len() && before[k] == after[j];
            assert(before[k].entity == entity);
        }
    }
}

} // verus!
