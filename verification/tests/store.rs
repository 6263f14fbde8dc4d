use mathema::cards::LineKind;
use mathema::db::{CardRecord, Database, QuestionKind, QuestionRecord, QuestionResult};
use mathema::language::Language;
use mathema::line_parser::LineParser;
use mathema::quiz::{build_quiz_items, find_card, suitable_questions};
use mathema::rng::MathemaRng;
use mathema::status::Status;
use mathema::uuid::Uuid;

const K1: QuestionKind = QuestionKind::Translate { from: Language::English, to: Language::Greek };
const K2: QuestionKind = QuestionKind::Translate { from: Language::Greek, to: Language::English };

#[test]
fn store_appends_per_card_and_kind() {
    let mut db = Database::empty();
    let u = Uuid { bits: 77 };
    assert!(db.card_record(u).is_none());
    db.push_question_record(u, K1, QuestionRecord { date: 10, result: QuestionResult::No });
    db.push_question_record(u, K1, QuestionRecord { date: 20, result: QuestionResult::Yes });
    db.push_question_record(u, K2, QuestionRecord { date: 30, result: QuestionResult::Almost });
    let rec = db.card_record(u).unwrap();
    let q1 = rec.questions(K1);
    assert_eq!(q1.len(), 2);
    assert_eq!(q1[0].date, 10);
    assert_eq!(q1[1].result, QuestionResult::Yes);
    assert_eq!(rec.questions(K2).len(), 1);
    assert!(db.card_record(Uuid { bits: 78 }).is_none());
}

#[test]
fn store_well_formedness_is_decided() {
    let mut db = Database::empty();
    let u = Uuid { bits: 1 };
    db.push_question_record(u, K1, QuestionRecord { date: 10, result: QuestionResult::Yes });
    db.push_question_record(u, K1, QuestionRecord { date: 20, result: QuestionResult::Yes });
    assert!(db.check_well_formed());
    // a backwards clock breaks the ascending-dates invariant
    db.push_question_record(u, K1, QuestionRecord { date: 5, result: QuestionResult::No });
    assert!(!db.check_well_formed());
    let mut db2 = Database::empty();
    db2.push_question_record(u, K2, QuestionRecord { date: -3, result: QuestionResult::No });
    assert!(!db2.check_well_formed());
}

#[test]
fn card_files_membership() {
    let mut db = Database::empty();
    db.card_files.push("a.cards".to_string());
    assert!(db.contains_card_file(&"a.cards".to_string()));
    assert!(!db.contains_card_file(&"b.cards".to_string()));
}

#[test]
fn line_parser_walks_lines() {
    let lines = vec!["one".to_string(), "   ".to_string(), "two".to_string()];
    let mut p = LineParser::new(lines);
    assert_eq!(p.line_number(), 1);
    assert!(!p.eof());
    assert_eq!(p.current_line(), "one");
    assert!(!p.current_line_is_blank());
    p.read_next_line();
    assert!(p.current_line_is_blank());
    p.read_next_line();
    assert_eq!(p.current_line(), "two");
    assert_eq!(p.line_number(), 3);
    p.read_next_line();
    assert!(p.eof());
    assert_eq!(p.current_line(), "");
    p.read_next_line();
    assert!(p.eof());
}

#[test]
fn status_stop_rules() {
    let mut s = Status::new();
    assert!(!s.contains_warnings());
    assert!(!s.should_stop(false));
    s.unknown_card_files.push("x.cards".to_string());
    assert!(s.contains_warnings());
    assert!(!s.contains_fatal());
    assert!(s.should_stop(false));
    assert!(!s.should_stop(true));
    s.duplicate_uuids.push(Uuid { bits: 3 });
    assert!(s.contains_fatal());
    assert!(s.should_stop(true));
}

#[test]
fn seeded_rng_is_reproducible_and_bounded() {
    let mut a = MathemaRng::new(7);
    let mut b = MathemaRng::new(7);
    for _ in 0..100 {
        assert_eq!(a.next_u64(), b.next_u64());
    }
    let mut c = MathemaRng::new(7);
    for bound in 1..50u64 {
        assert!(c.next_below(bound) < bound);
    }
    // an entropy-seeded source still draws within bounds
    let mut d = MathemaRng::from_entropy();
    assert!(d.next_below(10) < 10);
}

#[test]
fn question_kind_directions() {
    assert_eq!(K1.prompt_line_kind(), LineKind::Meaning(Language::English));
    assert_eq!(K1.response_line_kind(), LineKind::Meaning(Language::Greek));
    assert_eq!(K1.response_language(), Language::Greek);
    assert_eq!(K1.prompt_text(), "render from English to Ελληνικά");
    assert_eq!(K2.prompt_text(), "render from Ελληνικά to English");
}

#[test]
fn suitable_questions_per_language() {
    let greek = suitable_questions(Language::Greek).unwrap();
    assert_eq!(greek, vec![K1, K2]);
    assert!(suitable_questions(Language::English).is_none());
}

#[test]
fn quiz_items_carry_expected_lines() {
    let cards = mathema::cards::parse_cards_file_from(
        "s",
        vec!["uuid a1a2a3a4-b1b2-c1c2-d1d2-d3d4d5d6d7d8".to_string(), "en hello".to_string(),
            "gr g;iasoy".to_string(), "en hi".to_string()],
    )
    .unwrap();
    let (map, dups) = mathema::cards::collect_cards(cards);
    assert!(dups.is_empty());
    let u = map[0].0;
    assert!(find_card(&map, u).is_some());
    assert!(find_card(&map, Uuid { bits: 0 }).is_none());
    let queue = vec![(u, K1), (u, K2)];
    let items = build_quiz_items(&queue, &map).unwrap();
    assert_eq!(items.len(), 2);
    assert_eq!(items[0].expected, vec!["γίασου".to_string()]);
    assert_eq!(items[1].expected, vec!["hello".to_string(), "hi".to_string()]);
    // a queued card missing from the map refuses the whole build
    let bad = vec![(Uuid { bits: 1 }, K1)];
    assert!(build_quiz_items(&bad, &map).is_none());
}
