use mathema::db::{Database, QuestionKind, QuestionResult};
use mathema::language::Language;
use mathema::quiz::{QuizAction, QuizDriver, QuizEvent, QuizItem};
use mathema::uuid::Uuid;

const K1: QuestionKind = QuestionKind::Translate { from: Language::English, to: Language::Greek };

fn one_item() -> Vec<QuizItem> {
    vec![QuizItem {
        uuid: Uuid { bits: 9 },
        kind: K1,
        expected: vec!["alpha".to_string(), "beta".to_string()],
    }]
}

// A question whose whole expected set is matched yields Yes without
// the grading callback ever being requested.
#[test]
fn full_match_auto_grades_yes() {
    let mut db = Database::empty();
    let mut driver = QuizDriver::new(one_item(), 100, 10);
    let a = driver.step(&mut db, QuizEvent::Started, 100);
    assert!(matches!(a, QuizAction::Prompt { item: 0 }));
    let a = driver.step(&mut db, QuizEvent::Response(Some("beta".to_string())), 100);
    assert!(matches!(a, QuizAction::ReadResponse { item: 0, counter: 2 }));
    let a = driver.step(&mut db, QuizEvent::Response(Some("alpha".to_string())), 101);
    // grading was never requested
    assert!(matches!(a, QuizAction::Cleanup { item: 0 }));
    let record = db.card_record(Uuid { bits: 9 }).unwrap();
    let qs = record.questions(K1);
    assert_eq!(qs.len(), 1);
    assert_eq!(qs[0].result, QuestionResult::Yes);
    assert_eq!(qs[0].date, 101);
    let a = driver.step(&mut db, QuizEvent::Started, 102);
    assert!(matches!(a, QuizAction::Finished));
}

// Missed lines bring the breakdown, the user's own grade, and the
// corrective repeat-back loop; the grade stands whatever the loop does.
#[test]
fn missed_lines_grade_and_repeat() {
    let mut db = Database::empty();
    let mut driver = QuizDriver::new(one_item(), 0, 10);
    let a = driver.step(&mut db, QuizEvent::Started, 0);
    assert!(matches!(a, QuizAction::Prompt { item: 0 }));
    let a = driver.step(&mut db, QuizEvent::Response(Some("alpha".to_string())), 0);
    assert!(matches!(a, QuizAction::ReadResponse { item: 0, counter: 2 }));
    let a = driver.step(&mut db, QuizEvent::Response(Some("junk".to_string())), 0);
    match a {
        QuizAction::ReadResult { item, missing, correct, incorrect } => {
            assert_eq!(item, 0);
            assert_eq!(missing, vec!["beta".to_string()]);
            // a response that matched an expected line is correct;
            // one that matched nothing is not
            assert_eq!(correct, vec!["alpha".to_string()]);
            assert_eq!(incorrect, vec!["junk".to_string()]);
        }
        _ => panic!("expected the grading callback"),
    }
    let a = driver.step(&mut db, QuizEvent::ResultChosen(QuestionResult::Almost), 5);
    match &a {
        QuizAction::RepeatBack { item: 0, expected } => assert_eq!(expected, "alpha"),
        _ => panic!("expected the first repeat-back"),
    }
    // a wrong repetition asks for the same line again
    let a = driver.step(&mut db, QuizEvent::Response(Some("nope".to_string())), 5);
    match &a {
        QuizAction::RepeatBack { item: 0, expected } => assert_eq!(expected, "alpha"),
        _ => panic!("expected the same repeat-back"),
    }
    let a = driver.step(&mut db, QuizEvent::Response(Some("alpha".to_string())), 5);
    match &a {
        QuizAction::RepeatBack { item: 0, expected } => assert_eq!(expected, "beta"),
        _ => panic!("expected the next repeat-back"),
    }
    let a = driver.step(&mut db, QuizEvent::Response(Some("beta".to_string())), 7);
    assert!(matches!(a, QuizAction::Cleanup { item: 0 }));
    let qs = db.card_record(Uuid { bits: 9 }).unwrap().questions(K1);
    assert_eq!(qs.len(), 1);
    assert_eq!(qs[0].result, QuestionResult::Almost);
    assert_eq!(qs[0].date, 7);
}

// Giving up mid-repetition still records the chosen grade.
#[test]
fn giving_up_keeps_the_grade() {
    let mut db = Database::empty();
    let mut driver = QuizDriver::new(one_item(), 0, 10);
    driver.step(&mut db, QuizEvent::Started, 0);
    let a = driver.step(&mut db, QuizEvent::Response(None), 0);
    assert!(matches!(a, QuizAction::ReadResult { .. }));
    let a = driver.step(&mut db, QuizEvent::ResultChosen(QuestionResult::No), 3);
    assert!(matches!(a, QuizAction::RepeatBack { .. }));
    let a = driver.step(&mut db, QuizEvent::Response(None), 4);
    assert!(matches!(a, QuizAction::Cleanup { item: 0 }));
    let qs = db.card_record(Uuid { bits: 9 }).unwrap().questions(K1);
    assert_eq!(qs.len(), 1);
    assert_eq!(qs[0].result, QuestionResult::No);
    assert_eq!(qs[0].date, 4);
}

// The time budget is checked between items: overrunning it asks for
// more minutes; refusing stops the session with nothing recorded.
#[test]
fn time_budget_checked_between_items() {
    let mut db = Database::empty();
    let mut driver = QuizDriver::new(one_item(), 0, 10);
    let a = driver.step(&mut db, QuizEvent::Started, 601);
    match a {
        QuizAction::QuizExpired { elapsed, cards_remaining } => {
            assert_eq!(elapsed, 601);
            assert_eq!(cards_remaining, 1);
        }
        _ => panic!("expected the time-budget callback"),
    }
    let a = driver.step(&mut db, QuizEvent::Extension(None), 602);
    assert!(matches!(a, QuizAction::Finished));
    assert!(db.card_record(Uuid { bits: 9 }).is_none());

    // granting minutes resumes with the pending item
    let mut driver = QuizDriver::new(one_item(), 0, 10);
    let a = driver.step(&mut db, QuizEvent::Started, 601);
    assert!(matches!(a, QuizAction::QuizExpired { .. }));
    let a = driver.step(&mut db, QuizEvent::Extension(Some(5)), 700);
    assert!(matches!(a, QuizAction::Prompt { item: 0 }));
}

// The queue is walked in order, one record per item, and the session
// ends once every item is recorded.
#[test]
fn two_items_each_recorded_once() {
    let mut db = Database::empty();
    let items = vec![
        QuizItem { uuid: Uuid { bits: 1 }, kind: K1, expected: vec!["ena".to_string()] },
        QuizItem { uuid: Uuid { bits: 2 }, kind: K1, expected: vec!["dyo".to_string()] },
    ];
    let mut driver = QuizDriver::new(items, 0, 10);
    let a = driver.step(&mut db, QuizEvent::Started, 1);
    assert!(matches!(a, QuizAction::Prompt { item: 0 }));
    let a = driver.step(&mut db, QuizEvent::Response(Some("ena".to_string())), 2);
    assert!(matches!(a, QuizAction::Cleanup { item: 0 }));
    let a = driver.step(&mut db, QuizEvent::Started, 3);
    assert!(matches!(a, QuizAction::Prompt { item: 1 }));
    let a = driver.step(&mut db, QuizEvent::Response(Some("dyo".to_string())), 4);
    assert!(matches!(a, QuizAction::Cleanup { item: 1 }));
    let a = driver.step(&mut db, QuizEvent::Started, 5);
    assert!(matches!(a, QuizAction::Finished));
    let q1 = db.card_record(Uuid { bits: 1 }).unwrap().questions(K1);
    let q2 = db.card_record(Uuid { bits: 2 }).unwrap().questions(K1);
    assert_eq!((q1.len(), q2.len()), (1, 1));
    assert_eq!(q1[0].date, 2);
    assert_eq!(q2[0].date, 4);
}

// A question with no expected lines reads one response and grades Yes.
#[test]
fn empty_expected_set_is_an_instant_yes() {
    let mut db = Database::empty();
    let items = vec![QuizItem { uuid: Uuid { bits: 5 }, kind: K1, expected: vec![] }];
    let mut driver = QuizDriver::new(items, 0, 10);
    let a = driver.step(&mut db, QuizEvent::Started, 0);
    assert!(matches!(a, QuizAction::Prompt { item: 0 }));
    let a = driver.step(&mut db, QuizEvent::Response(Some("anything".to_string())), 1);
    assert!(matches!(a, QuizAction::Cleanup { item: 0 }));
    let qs = db.card_record(Uuid { bits: 5 }).unwrap().questions(K1);
    assert_eq!(qs[0].result, QuestionResult::Yes);
}
