use mathema::db::{Database, QuestionKind, QuestionRecord, QuestionResult};
use mathema::language::Language;
use mathema::rng::MathemaRng;
use mathema::selection::{expiration_dates, expired_cards};
use mathema::uuid::Uuid;

const K1: QuestionKind = QuestionKind::Translate { from: Language::English, to: Language::Greek };
const K2: QuestionKind = QuestionKind::Translate { from: Language::Greek, to: Language::English };

const DAY: i64 = 86400;

fn uuid(n: u128) -> Uuid {
    Uuid { bits: n }
}

fn asked(db: &mut Database, u: Uuid, kind: QuestionKind, days: &[(i64, QuestionResult)]) {
    for (day, result) in days {
        db.push_question_record(u, kind, QuestionRecord { date: day * DAY, result: *result });
    }
}

/// A store with one heavily overdue card, one mildly overdue card, one
/// never-asked card, and one card not yet due.
fn sample_db() -> (Database, Vec<Uuid>) {
    let mut db = Database::empty();
    let heavy = uuid(1);
    let mild = uuid(2);
    let fresh = uuid(3);
    let future = uuid(4);
    // due at day 2 + 1.5 days
    asked(&mut db, heavy, K1, &[(1, QuestionResult::Yes), (2, QuestionResult::Yes)]);
    // due at day 3 + 3 days
    asked(&mut db, mild, K1, &[(1, QuestionResult::Yes), (3, QuestionResult::Yes)]);
    // due at day 18 + 25.5 days, far past `now`
    asked(&mut db, future, K1, &[(1, QuestionResult::Yes), (18, QuestionResult::Yes)]);
    (db, vec![heavy, mild, fresh, future])
}

fn position(queue: &[(Uuid, QuestionKind)], u: Uuid) -> Option<usize> {
    queue.iter().position(|(q, _)| *q == u)
}

// No card id ever appears twice in a session queue.
#[test]
fn no_duplicate_cards_in_queue() {
    let (db, ids) = sample_db();
    let suitable = vec![K1, K2];
    for seed in 0..20u64 {
        let mut rng = MathemaRng::new(seed);
        let queue = expired_cards(&mut rng, &db, &ids, &suitable, 20 * DAY);
        for i in 0..queue.len() {
            for j in (i + 1)..queue.len() {
                assert_ne!(queue[i].0, queue[j].0);
            }
        }
    }
}

// The expired entries keep their most-overdue-first order.
#[test]
fn expired_cards_most_overdue_first() {
    let (db, ids) = sample_db();
    let suitable = vec![K1];
    for seed in 0..20u64 {
        let mut rng = MathemaRng::new(seed);
        let queue = expired_cards(&mut rng, &db, &ids, &suitable, 20 * DAY);
        // every queue holds exactly the two expired cards and the
        // never-asked one; the future card never surfaces
        assert_eq!(queue.len(), 3);
        let heavy = position(&queue, uuid(1)).unwrap();
        let mild = position(&queue, uuid(2)).unwrap();
        assert!(position(&queue, uuid(3)).is_some());
        assert!(position(&queue, uuid(4)).is_none());
        assert!(heavy < mild, "a more overdue card came later (seed {seed})");
    }
}

// The same store, cards, time and seed reproduce the same session.
#[test]
fn same_seed_reproduces_session() {
    let (db, ids) = sample_db();
    let suitable = vec![K1, K2];
    let mut rng1 = MathemaRng::new(42);
    let mut rng2 = MathemaRng::new(42);
    let q1 = expired_cards(&mut rng1, &db, &ids, &suitable, 20 * DAY);
    let q2 = expired_cards(&mut rng2, &db, &ids, &suitable, 20 * DAY);
    assert_eq!(q1, q2);
    assert_eq!(rng1.state, rng2.state);
}

// A card with no history at all is classified never-asked: it is
// always selectable, whatever the time, and joins the shuffle.
#[test]
fn never_asked_card_always_selectable() {
    let mut db = Database::empty();
    let lone = uuid(7);
    let ids = vec![lone];
    let suitable = vec![K1, K2];
    for seed in 0..10u64 {
        let mut rng = MathemaRng::new(seed);
        let queue = expired_cards(&mut rng, &db, &ids, &suitable, 0);
        assert_eq!(queue.len(), 1);
        assert_eq!(queue[0].0, lone);
    }
    // known gap: a single answered question yields no interval, so the
    // card is still classified never-asked and keeps surfacing through
    // that path, never through the overdue one
    db.push_question_record(lone, K1, QuestionRecord { date: DAY, result: QuestionResult::Yes });
    db.push_question_record(lone, K2, QuestionRecord { date: DAY, result: QuestionResult::Yes });
    let mut rng = MathemaRng::new(0);
    let queue = expired_cards(&mut rng, &db, &ids, &suitable, 100 * DAY);
    assert_eq!(queue.len(), 1);
    assert_eq!(queue[0].0, lone);
}

// The dated cross-product walks cards in card-major order and carries
// each pair's interval and due date.
#[test]
fn expiration_dates_cover_the_cross_product() {
    let (db, ids) = sample_db();
    let suitable = vec![K1, K2];
    let dates = expiration_dates(&db, &ids, &suitable);
    assert_eq!(dates.len(), 8);
    assert_eq!(dates[0].uuid, uuid(1));
    assert_eq!(dates[0].kind, K1);
    // interval 1.5 days on a gap of one day, due half a day later
    assert_eq!(dates[0].expiration, Some((DAY * 3 / 2, 2 * DAY + DAY * 3 / 2)));
    // the same card was never asked in the other direction
    assert_eq!(dates[1].uuid, uuid(1));
    assert_eq!(dates[1].kind, K2);
    assert_eq!(dates[1].expiration, None);
    // a card with no record at all has no due date either
    assert_eq!(dates[4].uuid, uuid(3));
    assert_eq!(dates[4].expiration, None);
}

// The interleave draws from both lists; with many cards both expired
// and never-asked items surface early across seeds.
#[test]
fn interleave_mixes_lists() {
    let mut db = Database::empty();
    let mut ids = Vec::new();
    for n in 0..6u128 {
        let u = uuid(100 + n);
        ids.push(u);
        asked(&mut db, u, K1, &[(1, QuestionResult::Yes), (2, QuestionResult::Yes)]);
    }
    for n in 0..6u128 {
        ids.push(uuid(200 + n));
    }
    let suitable = vec![K1];
    let mut first_was_expired = false;
    let mut first_was_fresh = false;
    for seed in 0..40u64 {
        let mut rng = MathemaRng::new(seed);
        let queue = expired_cards(&mut rng, &db, &ids, &suitable, 20 * DAY);
        assert_eq!(queue.len(), 12);
        if queue[0].0.bits < 200 {
            first_was_expired = true;
        } else {
            first_was_fresh = true;
        }
    }
    assert!(first_was_expired && first_was_fresh);
}
