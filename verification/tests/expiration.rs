use mathema::db::{CardRecord, QuestionKind, QuestionRecord, QuestionResult};
use mathema::language::Language;
use mathema::selection::{decrease, expiration_duration, increase};

const QK: QuestionKind = QuestionKind::Translate { from: Language::Greek, to: Language::English };

const DAY: i64 = 86400;
const START: i64 = 61;

fn ask(record: &mut CardRecord, date: &mut i64, days: i64, result: QuestionResult) {
    *date += days * DAY;
    record.push_question_record(QK, QuestionRecord { date: *date, result });
}

#[test]
fn expiration_never_asked() {
    let record = CardRecord::new();
    assert_eq!(expiration_duration(QK, &record), None);
}

#[test]
fn expiration_yes() {
    let mut record = CardRecord::new();
    let mut date = START;
    ask(&mut record, &mut date, 0, QuestionResult::Yes);
    assert_eq!(expiration_duration(QK, &record), None);
}

#[test]
fn expiration_yes_yes() {
    let mut record = CardRecord::new();
    let mut date = START;
    ask(&mut record, &mut date, 1, QuestionResult::Yes);
    ask(&mut record, &mut date, 2, QuestionResult::Yes);
    assert_eq!(expiration_duration(QK, &record), Some(increase(2 * DAY)));
}

#[test]
fn expiration_no_yes_yes() {
    let mut record = CardRecord::new();
    let mut date = START;
    ask(&mut record, &mut date, 1, QuestionResult::No);
    ask(&mut record, &mut date, 1, QuestionResult::Yes);
    ask(&mut record, &mut date, 2, QuestionResult::Yes);
    assert_eq!(expiration_duration(QK, &record), Some(increase(2 * DAY)));
}

#[test]
fn expiration_no_yes_yes_maybe() {
    let mut record = CardRecord::new();
    let mut date = START;
    ask(&mut record, &mut date, 1, QuestionResult::No);
    ask(&mut record, &mut date, 1, QuestionResult::Yes);
    ask(&mut record, &mut date, 2, QuestionResult::Yes);
    ask(&mut record, &mut date, 3, QuestionResult::Almost);
    assert_eq!(expiration_duration(QK, &record), Some(3 * DAY));
}

#[test]
fn expiration_no_yes_yes_maybe_yes() {
    let mut record = CardRecord::new();
    let mut date = START;
    ask(&mut record, &mut date, 1, QuestionResult::No);
    ask(&mut record, &mut date, 1, QuestionResult::Yes);
    ask(&mut record, &mut date, 2, QuestionResult::Yes);
    ask(&mut record, &mut date, 3, QuestionResult::Almost);
    ask(&mut record, &mut date, 3, QuestionResult::Yes);
    assert_eq!(expiration_duration(QK, &record), Some(increase(3 * DAY)));
}

#[test]
fn expiration_no_yes_yes_maybe_no() {
    let mut record = CardRecord::new();
    let mut date = START;
    ask(&mut record, &mut date, 1, QuestionResult::No);
    ask(&mut record, &mut date, 1, QuestionResult::Yes);
    ask(&mut record, &mut date, 2, QuestionResult::Yes);
    ask(&mut record, &mut date, 3, QuestionResult::Almost);
    ask(&mut record, &mut date, 3, QuestionResult::No);
    assert_eq!(expiration_duration(QK, &record), Some(decrease(3 * DAY)));
}

// Two correct answers two days apart: the gap scaled by three halves
// gives exactly three days.
#[test]
fn yes_gap_scales_to_three_days() {
    let mut record = CardRecord::new();
    let mut date = START;
    ask(&mut record, &mut date, 1, QuestionResult::Yes);
    ask(&mut record, &mut date, 2, QuestionResult::Yes);
    assert_eq!(expiration_duration(QK, &record), Some(3 * DAY));
}

// The reducers hit exact values: max for Yes, min for Almost, half the
// min for No.
#[test]
fn reducer_values_exact() {
    let mut yes = CardRecord::new();
    let mut date = START;
    ask(&mut yes, &mut date, 1, QuestionResult::Yes);
    ask(&mut yes, &mut date, 4, QuestionResult::Yes);
    ask(&mut yes, &mut date, 2, QuestionResult::Yes);
    // gaps 4 days and 2 days; max 4, scaled -> 6 days
    assert_eq!(expiration_duration(QK, &yes), Some(6 * DAY));

    let mut no = CardRecord::new();
    let mut date = START;
    ask(&mut no, &mut date, 1, QuestionResult::No);
    ask(&mut no, &mut date, 4, QuestionResult::No);
    ask(&mut no, &mut date, 2, QuestionResult::No);
    // gaps 4 and 2 days; min 2, halved -> 1 day
    assert_eq!(expiration_duration(QK, &no), Some(DAY));

    let mut almost = CardRecord::new();
    let mut date = START;
    ask(&mut almost, &mut date, 1, QuestionResult::Almost);
    ask(&mut almost, &mut date, 4, QuestionResult::Almost);
    ask(&mut almost, &mut date, 2, QuestionResult::Almost);
    // gaps 4 and 2 days; min taken unscaled -> 2 days
    assert_eq!(expiration_duration(QK, &almost), Some(2 * DAY));
}

// Histories of other question kinds do not feed this kind's gaps.
#[test]
fn other_kinds_do_not_interfere() {
    let other = QuestionKind::Translate { from: Language::English, to: Language::Greek };
    let mut record = CardRecord::new();
    record.push_question_record(other, QuestionRecord { date: START, result: QuestionResult::Yes });
    record.push_question_record(
        other,
        QuestionRecord { date: START + DAY, result: QuestionResult::Yes },
    );
    assert_eq!(expiration_duration(QK, &record), None);
    assert_eq!(expiration_duration(other, &record), Some(increase(DAY)));
}

// Scaling arithmetic rounds toward zero.
#[test]
fn scaling_rounds_toward_zero() {
    assert_eq!(increase(3), 4);
    assert_eq!(increase(0), 0);
    assert_eq!(decrease(3), 1);
    assert_eq!(decrease(0), 0);
}

// Record bookkeeping behind the model.
#[test]
fn record_bookkeeping() {
    let mut record = CardRecord::new();
    let mut date = START;
    ask(&mut record, &mut date, 1, QuestionResult::No);
    ask(&mut record, &mut date, 2, QuestionResult::Yes);
    assert_eq!(record.questions(QK).len(), 2);
    assert_eq!(record.last_asked(QK), Some(START + 3 * DAY));
    assert_eq!(record.most_recent_question_with_result(QK, QuestionResult::No), Some(0));
    assert_eq!(record.most_recent_question_with_result(QK, QuestionResult::Almost), None);
    let pairs = record.question_pairs(QK);
    assert_eq!(pairs.len(), 1);
    assert_eq!(pairs[0].0.date, START + DAY);
    assert_eq!(pairs[0].1.date, START + 3 * DAY);
}
