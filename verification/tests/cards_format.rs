use mathema::cards::{
    assign_fresh_uuids, collect_cards, first_preexisting_uuid, parse_cards_file_from,
    write_cards_to, Card, CardLine, LineKind,
};
use mathema::errors::MathemaError;
use mathema::language::Language;
use mathema::uuid::Uuid;

const SAMPLE_UUID: &str = "a1a2a3a4-b1b2-c1c2-d1d2-d3d4d5d6d7d8";
const SAMPLE_BITS: u128 = 0xa1a2a3a4b1b2c1c2d1d2d3d4d5d6d7d8;

fn lines(src: &[&str]) -> Vec<String> {
    src.iter().map(|s| s.to_string()).collect()
}

#[test]
fn parses_two_cards() {
    let cards = parse_cards_file_from(
        "sample.cards",
        lines(&[
            "# greeting",
            "gr g;iasoy",
            "en hello",
            "",
            &format!("uuid {SAMPLE_UUID}"),
            "en good morning",
            "gr kalhm;era",
        ]),
    )
    .unwrap();
    assert_eq!(cards.len(), 2);
    assert_eq!(cards[0].uuid, None);
    assert_eq!(cards[0].start_line, 1);
    assert_eq!(cards[0].lines.len(), 3);
    assert_eq!(cards[0].lines[0].kind, LineKind::Comment);
    assert_eq!(cards[0].lines[0].text, "greeting");
    assert_eq!(cards[0].lines[1].kind, LineKind::Meaning(Language::Greek));
    assert_eq!(cards[0].lines[1].text, "γίασου");
    assert_eq!(cards[0].lines[2].text, "hello");
    assert_eq!(cards[1].uuid, Some(Uuid { bits: SAMPLE_BITS }));
    assert_eq!(cards[1].start_line, 5);
    assert_eq!(cards[1].lines[1].text, "καλημέρα");
}

#[test]
fn parses_pos_and_aorist_lines() {
    let cards =
        parse_cards_file_from("s", lines(&["pos verb", "αόριστος έφαγα", "en I eat"])).unwrap();
    assert_eq!(cards.len(), 1);
    assert_eq!(cards[0].lines[0].kind, LineKind::PartOfSpeech);
    assert_eq!(cards[0].lines[0].text, "verb");
    assert_eq!(cards[0].lines[1].kind, LineKind::Aoristos);
    assert_eq!(cards[0].lines[1].text, "έφαγα");
}

#[test]
fn unknown_word_is_an_error() {
    let e = parse_cards_file_from("s", lines(&["en fine", "xx what"])).unwrap_err();
    assert_eq!(
        e,
        MathemaError::UnrecognizedLineKind { source_line: 2, kind: "xx".to_string() }
    );
}

#[test]
fn bad_uuid_is_an_error() {
    let e = parse_cards_file_from("file.cards", lines(&["en a", "uuid zzz"])).unwrap_err();
    assert_eq!(e, MathemaError::InvalidUUID { file: "file.cards".to_string(), line: 1 });
}

#[test]
fn second_uuid_is_an_error() {
    let e = parse_cards_file_from(
        "file.cards",
        lines(&[&format!("uuid {SAMPLE_UUID}"), &format!("uuid {SAMPLE_UUID}")]),
    )
    .unwrap_err();
    assert_eq!(e, MathemaError::PreexistingUUID { file: "file.cards".to_string(), line: 1 });
}

#[test]
fn writes_cards_back_out() {
    let card = Card {
        uuid: Some(Uuid { bits: SAMPLE_BITS }),
        start_line: 1,
        lines: vec![
            CardLine { kind: LineKind::Meaning(Language::English), text: "hello".to_string() },
            CardLine { kind: LineKind::Comment, text: "greeting".to_string() },
        ],
    };
    let out = write_cards_to(&vec![card]);
    assert_eq!(
        out,
        vec![
            format!("uuid {SAMPLE_UUID}"),
            "en hello".to_string(),
            "# greeting".to_string(),
        ]
    );
}

#[test]
fn written_cards_parse_back() {
    let original = parse_cards_file_from(
        "s",
        lines(&["# note", "gr g;iasoy", "", &format!("uuid {SAMPLE_UUID}"), "en hi"]),
    )
    .unwrap();
    let out = write_cards_to(&original);
    let reparsed = parse_cards_file_from("s", out).unwrap();
    assert_eq!(reparsed.len(), original.len());
    for (a, b) in original.iter().zip(reparsed.iter()) {
        assert_eq!(a.uuid, b.uuid);
        assert_eq!(a.lines.len(), b.lines.len());
        for (la, lb) in a.lines.iter().zip(b.lines.iter()) {
            assert_eq!(la.kind, lb.kind);
            assert_eq!(la.text, lb.text);
        }
    }
}

#[test]
fn fresh_uuids_fill_only_gaps() {
    let mut cards = parse_cards_file_from(
        "s",
        lines(&["en one", "", &format!("uuid {SAMPLE_UUID}"), "en two", "", "en three"]),
    )
    .unwrap();
    assert_eq!(first_preexisting_uuid(&cards), Some(3));
    let n = assign_fresh_uuids(&mut cards);
    assert_eq!(n, 2);
    assert!(cards.iter().all(|c| c.uuid.is_some()));
    assert_eq!(cards[1].uuid, Some(Uuid { bits: SAMPLE_BITS }));
    // fresh ids carry the version-four and variant bits
    let minted = cards[0].uuid.unwrap().bits;
    assert_eq!((minted >> 76) & 0xf, 4);
    assert_eq!((minted >> 62) & 0x3, 2);
}

#[test]
fn collect_cards_keeps_first_claimant() {
    let mk = |bits: Option<u128>, text: &str| Card {
        uuid: bits.map(|b| Uuid { bits: b }),
        start_line: 1,
        lines: vec![CardLine {
            kind: LineKind::Meaning(Language::English),
            text: text.to_string(),
        }],
    };
    let (map, dups) = collect_cards(vec![
        mk(Some(1), "first"),
        mk(None, "no id"),
        mk(Some(2), "second"),
        mk(Some(1), "copycat"),
    ]);
    assert_eq!(map.len(), 2);
    assert_eq!(map[0].0, Uuid { bits: 1 });
    assert_eq!(map[0].1.lines[0].text, "first");
    assert_eq!(map[1].0, Uuid { bits: 2 });
    assert_eq!(dups, vec![Uuid { bits: 1 }]);
}

#[test]
fn filter_looks_into_every_line() {
    let card = parse_cards_file_from("s", lines(&["en good morning", "gr kalhm;era"]))
        .unwrap()
        .remove(0);
    assert!(card.matches_filter("morn"));
    assert!(card.matches_filter("ημέ"));
    assert!(card.matches_filter(""));
    assert!(!card.matches_filter("evening"));
    assert!(!card.matches_filter("good morning and more"));
}

#[test]
fn card_line_queries() {
    let card = parse_cards_file_from("s", lines(&["en one", "en two", "gr tr;ia", "# note"]))
        .unwrap()
        .remove(0);
    assert_eq!(
        card.lines_with_kind(LineKind::Meaning(Language::English)),
        vec!["one".to_string(), "two".to_string()]
    );
    assert_eq!(card.meanings(Language::Greek), vec!["τρία".to_string()]);
    assert!(!card.is_comment_card());
    let comment_only = parse_cards_file_from("s", lines(&["# a", "# b"])).unwrap().remove(0);
    assert!(comment_only.is_comment_card());
}
