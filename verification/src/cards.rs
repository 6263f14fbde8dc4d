//! Cards and the card-file text format: a card is a run of non-blank
//! lines, each opening with `#` (a comment), `uuid`, `pos`, the Greek
//! word for aorist, or a language tag followed by a meaning; cards are
//! separated by blank lines.

use vstd::prelude::*;
use crate::errors::MathemaError;
use crate::language::Language;
use crate::line_parser::LineParser;
use crate::text::{
    blank_char, chars_of_str, is_blank_char, spec_trim, string_from_chars, trim_chars,
};
use crate::uuid::{parse_uuid, uuid_of_str, Uuid};

verus! {

#[derive(Clone, Copy, Debug, PartialEq, Eq, Hash, Structural)]
pub enum LineKind {
    Comment,
    Meaning(Language),
    PartOfSpeech,
    Aoristos,
}

#[derive(Clone, Debug)]
pub struct CardLine {
    pub kind: LineKind,
    pub text: String,
}

#[derive(Clone, Debug)]
pub struct Card {
    pub uuid: Option<Uuid>,
    pub start_line: u64,
    pub lines: Vec<CardLine>,
}

/// The kinds and texts of a card's lines.
pub open spec fn line_views(lines: Seq<CardLine>) -> Seq<(LineKind, Seq<char>)> {
    Seq::new(lines.len(), |i: int| (lines[i].kind, lines[i].text@))
}

/// The texts of the lines of one kind, in card order.
pub open spec fn spec_lines_with_kind(lines: Seq<CardLine>, kind: LineKind) -> Seq<Seq<char>>
    decreases lines.len(),
{
    if lines.len() == 0 {
        Seq::empty()
    } else {
        let rest = spec_lines_with_kind(lines.drop_last(), kind);
        if lines.last().kind == kind {
            rest.push(lines.last().text@)
        } else {
            rest
        }
    }
}

impl Card {
    /// The texts of this card's lines of the given kind.
    pub fn lines_with_kind(&self, kind: LineKind) -> (r: Vec<String>)
        ensures
            r@.len() == spec_lines_with_kind(self.lines@, kind).len(),
            forall|i: int|
                0 <= i < r@.len() ==> (#[trigger] r@[i])@ == spec_lines_with_kind(
                    self.lines@,
                    kind,
                )[i],
    {
        let mut r: Vec<String> = Vec::new();
        let mut i: usize = 0;
        while i < self.lines.len()
            invariant
                0 <= i <= self.lines@.len(),
                r@.len() == spec_lines_with_kind(self.lines@.take(i as int), kind).len(),
                forall|j: int|
                    0 <= j < r@.len() ==> (#[trigger] r@[j])@ == spec_lines_with_kind(
                        self.lines@.take(i as int),
                        kind,
                    )[j],
            decreases self.lines@.len() - i,
        {
            proof {
                assert(self.lines@.take(i + 1).drop_last() =~= self.lines@.take(i as int));
                assert(self.lines@.take(i + 1).last() == self.lines@[i as int]);
            }
            if kind_eq(self.lines[i].kind, kind) {
                let s = self.lines[i].text.clone();
                r.push(s);
            }
            i += 1;
        }
        proof {
            assert(self.lines@.take(self.lines@.len() as int) =~= self.lines@);
        }
        r
    }

    /// The card's meanings in the given language.
    pub fn meanings(&self, language: Language) -> (r: Vec<String>)
        ensures
            r@.len() == spec_lines_with_kind(self.lines@, LineKind::Meaning(language)).len(),
            forall|i: int|
                0 <= i < r@.len() ==> (#[trigger] r@[i])@ == spec_lines_with_kind(
                    self.lines@,
                    LineKind::Meaning(language),
                )[i],
    {
        self.lines_with_kind(LineKind::Meaning(language))
    }

    /// Whether every line of the card is a comment.
    pub fn is_comment_card(&self) -> (r: bool)
        ensures
            r == forall|i: int|
                0 <= i < self.lines@.len() ==> (#[trigger] self.lines@[i]).kind
                    == LineKind::Comment,
    {
        let mut i: usize = 0;
        while i < self.lines.len()
            invariant
                0 <= i <= self.lines@.len(),
                forall|j: int| 0 <= j < i ==> (#[trigger] self.lines@[j]).kind == LineKind::Comment,
            decreases self.lines@.len() - i,
        {
            if !kind_eq(self.lines[i].kind, LineKind::Comment) {
                return false;
            }
            i += 1;
        }
        true
    }
}

/// Whether `needle` occurs contiguously inside `hay`.
pub open spec fn is_substring(hay: Seq<char>, needle: Seq<char>) -> bool {
    exists|o: int|
        0 <= o <= hay.len() - needle.len() && #[trigger] hay.subrange(o, o + needle.len())
            == needle
}

/// Substring search, position by position.
pub fn contains_text(hay: &str, needle: &str) -> (r: bool)
    ensures
        r == is_substring(hay@, needle@),
{
    let hv = chars_of_str(hay);
    let nv = chars_of_str(needle);
    let hn = hv.len();
    let nn = nv.len();
    if nn > hn {
        return false;
    }
    let mut o: usize = 0;
    while o <= hn - nn
        invariant
            0 <= o <= hn - nn + 1,
            nn <= hn,
            hn == hay@.len(),
            nn == needle@.len(),
            hv@ == hay@,
            nv@ == needle@,
            forall|p: int|
                0 <= p < o ==> #[trigger] hay@.subrange(p, p + needle@.len()) != needle@,
        decreases hn - nn - o + 1,
    {
        let mut k: usize = 0;
        let mut all = true;
        while k < nn
            invariant
                0 <= k <= nn,
                0 <= o <= hn - nn,
                hn == hay@.len(),
                nn == needle@.len(),
                hv@ == hay@,
                nv@ == needle@,
                all == (forall|q: int| 0 <= q < k ==> hay@[o + q] == #[trigger] needle@[q]),
            decreases nn - k,
        {
            if hv[o + k] != nv[k] {
                all = false;
                k = nn;
            } else {
                k += 1;
            }
        }
        if all {
            proof {
                assert(hay@.subrange(o as int, o + needle@.len()) =~= needle@);
            }
            return true;
        }
        proof {
            assert(hay@.subrange(o as int, o + needle@.len()) != needle@) by {
                if hay@.subrange(o as int, o + needle@.len()) == needle@ {
                    assert(forall|q: int|
                        0 <= q < needle@.len() ==> hay@.subrange(o as int, o + needle@.len())[q]
                            == needle@[q]);
                }
            }
        }
        o += 1;
    }
    false
}

impl Card {
    /// Whether any line of the card contains the filter text.
    pub fn matches_filter(&self, filter: &str) -> (r: bool)
        ensures
            r == exists|i: int|
                0 <= i < self.lines@.len() && is_substring(
                    (#[trigger] self.lines@[i]).text@,
                    filter@,
                ),
    {
        let mut i: usize = 0;
        while i < self.lines.len()
            invariant
                0 <= i <= self.lines@.len(),
                forall|j: int|
                    0 <= j < i ==> !is_substring((#[trigger] self.lines@[j]).text@, filter@),
            decreases self.lines@.len() - i,
        {
            if contains_text(self.lines[i].text.as_str(), filter) {
                return true;
            }
            i += 1;
        }
        false
    }
}

fn kind_eq(a: LineKind, b: LineKind) -> (r: bool)
    ensures
        r == (a == b),
{
    match (a, b) {
        (LineKind::Comment, LineKind::Comment) => true,
        (LineKind::PartOfSpeech, LineKind::PartOfSpeech) => true,
        (LineKind::Aoristos, LineKind::Aoristos) => true,
        (LineKind::Meaning(l1), LineKind::Meaning(l2)) => l1 == l2,
        _ => false,
    }
}

/// First blank position of a line; its length when none.
pub open spec fn first_blank_idx(s: Seq<char>) -> int
    decreases s.len(),
{
    if s.len() == 0 {
        0
    } else if is_blank_char(s[0]) {
        0
    } else {
        1 + first_blank_idx(s.drop_first())
    }
}

pub proof fn lemma_first_blank_idx(s: Seq<char>)
    ensures
        0 <= first_blank_idx(s) <= s.len(),
        first_blank_idx(s) < s.len() ==> is_blank_char(s[first_blank_idx(s)]),
        forall|j: int| 0 <= j < first_blank_idx(s) ==> !is_blank_char(#[trigger] s[j]),
    decreases s.len(),
{
    if s.len() > 0 && !is_blank_char(s[0]) {
        lemma_first_blank_idx(s.drop_first());
        let d = s.drop_first();
        assert forall|j: int| 0 <= j < first_blank_idx(s) implies !is_blank_char(
            #[trigger] s[j],
        ) by {
            if j > 0 {
                assert(s[j] == d[j - 1]);
            }
        }
        if first_blank_idx(s) < s.len() {
            assert(s[first_blank_idx(s)] == d[first_blank_idx(d)]);
        }
    }
}

/// The opening word of a card-file line.
pub open spec fn spec_word0(line: Seq<char>) -> Seq<char> {
    line.take(first_blank_idx(line))
}

/// What stands after the opening word, trimmed.
pub open spec fn spec_rest(line: Seq<char>) -> Seq<char> {
    spec_trim(line.skip(first_blank_idx(line)))
}

/// One classified card-file line.
pub enum ParsedLine {
    /// `# ...`: a comment, with its trimmed text.
    Comment(Seq<char>),
    /// `uuid ...`: the card's id, if the text names one.
    UuidLine(Option<u128>),
    /// `pos ...`: a part of speech.
    Pos(Seq<char>),
    /// The aorist line.
    AoristLine(Seq<char>),
    /// `<language tag> ...`: a meaning, transliterated.
    Meaning(Language, Seq<char>),
    /// An opening word nobody knows.
    Unrecognized(Seq<char>),
}

pub open spec fn aoristos_word() -> Seq<char> {
    seq![
        '\u{3b1}',
        '\u{3cc}',
        '\u{3c1}',
        '\u{3b9}',
        '\u{3c3}',
        '\u{3c4}',
        '\u{3bf}',
        '\u{3c2}',
    ]
}

/// How one non-blank card-file line reads.
pub open spec fn spec_classify_line(line: Seq<char>) -> ParsedLine {
    if line.len() > 0 && line[0] == '#' {
        ParsedLine::Comment(spec_trim(line.skip(1)))
    } else {
        let w = spec_word0(line);
        let rest = spec_rest(line);
        if w == seq!['u', 'u', 'i', 'd'] {
            ParsedLine::UuidLine(uuid_of_str(rest))
        } else if w == seq!['p', 'o', 's'] {
            ParsedLine::Pos(rest)
        } else if w == aoristos_word() {
            ParsedLine::AoristLine(rest)
        } else {
            match Language::spec_from_str(w) {
                Some(l) => ParsedLine::Meaning(l, l.spec_transliterate(rest)),
                None => ParsedLine::Unrecognized(w),
            }
        }
    }
}

/// The id a card carries, as plain bits.
pub open spec fn uuid_view(u: Option<Uuid>) -> Option<u128> {
    match u {
        None => None,
        Some(x) => Some(x.bits),
    }
}

/// The view of each line of a file.
pub open spec fn views_of(lines: Seq<String>) -> Seq<Seq<char>> {
    Seq::new(lines.len(), |i: int| lines[i]@)
}

/// How reading one card out of a file ends.
pub enum CardParse {
    /// The card's id, its lines, and the index of the line after it.
    Parsed { uuid: Option<u128>, lines: Seq<(LineKind, Seq<char>)>, next: int },
    /// A second id line inside one card.
    DoubleUuid,
    /// An id line whose text is no id.
    BadUuid,
    /// A line whose opening word nobody knows.
    BadLine { at: int, word: Seq<char> },
}

/// Reads one card from line `i` on: non-blank lines are classified and
/// collected until a blank line or the end of the file.
pub open spec fn spec_parse_card(
    lines: Seq<Seq<char>>,
    i: int,
    uuid: Option<u128>,
    acc: Seq<(LineKind, Seq<char>)>,
) -> CardParse
    decreases lines.len() - i,
{
    if i < 0 || i >= lines.len() || spec_trim(lines[i]).len() == 0 {
        CardParse::Parsed { uuid, lines: acc, next: i }
    } else {
        match spec_classify_line(lines[i]) {
            ParsedLine::Comment(t) => spec_parse_card(
                lines,
                i + 1,
                uuid,
                acc.push((LineKind::Comment, t)),
            ),
            ParsedLine::UuidLine(opt) => if uuid is Some {
                CardParse::DoubleUuid
            } else {
                match opt {
                    Some(u) => spec_parse_card(lines, i + 1, Some(u), acc),
                    None => CardParse::BadUuid,
                }
            },
            ParsedLine::Pos(t) => spec_parse_card(
                lines,
                i + 1,
                uuid,
                acc.push((LineKind::PartOfSpeech, t)),
            ),
            ParsedLine::AoristLine(t) => spec_parse_card(
                lines,
                i + 1,
                uuid,
                acc.push((LineKind::Aoristos, t)),
            ),
            ParsedLine::Meaning(l, t) => spec_parse_card(
                lines,
                i + 1,
                uuid,
                acc.push((LineKind::Meaning(l), t)),
            ),
            ParsedLine::Unrecognized(w) => CardParse::BadLine { at: i, word: w },
        }
    }
}

/// Reading a card never moves backward, and moves forward at least one
/// line when it starts on a non-blank line.
pub proof fn lemma_parse_card_next(
    lines: Seq<Seq<char>>,
    i: int,
    uuid: Option<u128>,
    acc: Seq<(LineKind, Seq<char>)>,
)
    ensures
        match spec_parse_card(lines, i, uuid, acc) {
            CardParse::Parsed { uuid: u2, lines: l2, next } => next >= i && (0 <= i < lines.len()
                && spec_trim(lines[i]).len() != 0 ==> next >= i + 1) && (i <= lines.len() ==> next
                <= lines.len()),
            _ => true,
        },
    decreases lines.len() - i,
{
    if !(i < 0 || i >= lines.len() || spec_trim(lines[i]).len() == 0) {
        match spec_classify_line(lines[i]) {
            ParsedLine::Comment(t) => {
                lemma_parse_card_next(lines, i + 1, uuid, acc.push((LineKind::Comment, t)));
            },
            ParsedLine::UuidLine(opt) => {
                if uuid is None && opt is Some {
                    lemma_parse_card_next(lines, i + 1, Some(opt.unwrap()), acc);
                }
            },
            ParsedLine::Pos(t) => {
                lemma_parse_card_next(lines, i + 1, uuid, acc.push((LineKind::PartOfSpeech, t)));
            },
            ParsedLine::AoristLine(t) => {
                lemma_parse_card_next(lines, i + 1, uuid, acc.push((LineKind::Aoristos, t)));
            },
            ParsedLine::Meaning(l, t) => {
                lemma_parse_card_next(lines, i + 1, uuid, acc.push((LineKind::Meaning(l), t)));
            },
            ParsedLine::Unrecognized(w) => {},
        }
    }
}

/// A copy of the characters between two positions.
fn slice_chars(v: &Vec<char>, from: usize, to: usize) -> (r: Vec<char>)
    requires
        from <= to <= v@.len(),
    ensures
        r@ == v@.subrange(from as int, to as int),
{
    let mut r: Vec<char> = Vec::new();
    let mut i: usize = from;
    while i < to
        invariant
            from <= i <= to <= v@.len(),
            r@ == v@.subrange(from as int, i as int),
        decreases to - i,
    {
        r.push(v[i]);
        proof {
            assert(r@ =~= v@.subrange(from as int, i + 1));
        }
        i += 1;
    }
    r
}

fn is_uuid_word(w: &Vec<char>) -> (r: bool)
    ensures
        r == (w@ == seq!['u', 'u', 'i', 'd']),
{
    if w.len() == 4 && w[0] == 'u' && w[1] == 'u' && w[2] == 'i' && w[3] == 'd' {
        proof {
            assert(w@ =~= seq!['u', 'u', 'i', 'd']);
        }
        true
    } else {
        false
    }
}

fn is_pos_word(w: &Vec<char>) -> (r: bool)
    ensures
        r == (w@ == seq!['p', 'o', 's']),
{
    if w.len() == 3 && w[0] == 'p' && w[1] == 'o' && w[2] == 's' {
        proof {
            assert(w@ =~= seq!['p', 'o', 's']);
        }
        true
    } else {
        false
    }
}

fn is_aoristos_word(w: &Vec<char>) -> (r: bool)
    ensures
        r == (w@ == aoristos_word()),
{
    if w.len() == 8 && w[0] == '\u{3b1}' && w[1] == '\u{3cc}' && w[2] == '\u{3c1}' && w[3]
        == '\u{3b9}' && w[4] == '\u{3c3}' && w[5] == '\u{3c4}' && w[6] == '\u{3bf}' && w[7]
        == '\u{3c2}' {
        proof {
            assert(w@ =~= aoristos_word());
        }
        true
    } else {
        false
    }
}

/// Which error a failed card read surfaces: a duplicate or unreadable
/// id names the file and the card's first line; an unknown opening word
/// names its own line and the word.
pub open spec fn error_matches(
    err: CardParse,
    e: MathemaError,
    source_file: Seq<char>,
    start: int,
) -> bool {
    match err {
        CardParse::DoubleUuid => match e {
            MathemaError::PreexistingUUID { file, line } => file@ == source_file && line == start
                + 1,
            _ => false,
        },
        CardParse::BadUuid => match e {
            MathemaError::InvalidUUID { file, line } => file@ == source_file && line == start + 1,
            _ => false,
        },
        CardParse::BadLine { at, word } => match e {
            MathemaError::UnrecognizedLineKind { source_line, kind } => source_line == at + 1
                && kind@ == word,
            _ => false,
        },
        CardParse::Parsed { .. } => false,
    }
}

/// Reads one card, the parser standing on its first line.
pub fn parse_card(source_file: &str, parser: &mut LineParser) -> (r: Result<Card, MathemaError>)
    requires
        old(parser).wf(),
        old(parser).lines@.len() < u64::MAX,
    ensures
        final(parser).wf(),
        final(parser).lines@ == old(parser).lines@,
        ({
            let outcome = spec_parse_card(
                views_of(old(parser).lines@),
                old(parser).index as int,
                None,
                Seq::empty(),
            );
            match r {
                Ok(card) => match outcome {
                    CardParse::Parsed { uuid, lines, next } => {
                        &&& uuid_view(card.uuid) == uuid
                        &&& line_views(card.lines@) == lines
                        &&& final(parser).index == next
                        &&& card.start_line == old(parser).index + 1
                    },
                    _ => false,
                },
                Err(e) => error_matches(outcome, e, source_file@, old(parser).index as int),
            }
        }),
{
    let ghost lv = views_of(old(parser).lines@);
    let ghost i0 = old(parser).index as int;
    let start_line = parser.line_number();
    let mut card = Card { uuid: None, start_line, lines: Vec::new() };
    proof {
        assert(line_views(card.lines@) =~= Seq::<(LineKind, Seq<char>)>::empty());
    }
    while !parser.current_line_is_blank()
        invariant
            parser.wf(),
            parser.lines@ == old(parser).lines@,
            lv == views_of(old(parser).lines@),
            old(parser).lines@.len() < u64::MAX,
            i0 == old(parser).index as int,
            card.start_line == i0 + 1,
            spec_parse_card(lv, i0, None, Seq::empty()) == spec_parse_card(
                lv,
                parser.index as int,
                uuid_view(card.uuid),
                line_views(card.lines@),
            ),
        decreases parser.lines@.len() - parser.index,
    {
        let ghost icur = parser.index as int;
        let ghost uuid_cur = uuid_view(card.uuid);
        let ghost acc_cur = line_views(card.lines@);
        proof {
            // on a non-blank line the cursor is inside the file
            assert(icur < lv.len());
            assert(lv[icur] == parser.spec_current_line());
        }
        let line = parser.current_line();
        let v = chars_of_str(line);
        if v.len() > 0 && v[0] == '#' {
            let tail = slice_chars(&v, 1, v.len());
            proof {
                assert(tail@ =~= v@.skip(1));
            }
            let t = trim_chars(&tail);
            let text = string_from_chars(&t);
            card.lines.push(CardLine { kind: LineKind::Comment, text });
            proof {
                assert(line_views(card.lines@) =~= acc_cur.push((LineKind::Comment, t@)));
            }
        } else {
            let mut fb: usize = 0;
            while fb < v.len() && !blank_char(v[fb])
                invariant
                    0 <= fb <= v@.len(),
                    forall|j: int| 0 <= j < fb ==> !is_blank_char(#[trigger] v@[j]),
                decreases v@.len() - fb,
            {
                fb += 1;
            }
            proof {
                lemma_first_blank_idx(v@);
                assert(fb == first_blank_idx(v@));
            }
            let word = slice_chars(&v, 0, fb);
            let tail = slice_chars(&v, fb, v.len());
            proof {
                assert(word@ =~= spec_word0(v@));
                assert(tail@ =~= v@.skip(fb as int));
            }
            let rest_v = trim_chars(&tail);
            if is_uuid_word(&word) {
                if card.uuid.is_some() {
                    return Err(
                        MathemaError::PreexistingUUID {
                            file: String::from_str(source_file),
                            line: card.start_line,
                        },
                    );
                }
                let rest_s = string_from_chars(&rest_v);
                match parse_uuid(rest_s.as_str()) {
                    Some(bits) => {
                        card.uuid = Some(Uuid { bits });
                    },
                    None => {
                        return Err(
                            MathemaError::InvalidUUID {
                                file: String::from_str(source_file),
                                line: card.start_line,
                            },
                        );
                    },
                }
            } else if is_pos_word(&word) {
                let text = string_from_chars(&rest_v);
                card.lines.push(CardLine { kind: LineKind::PartOfSpeech, text });
                proof {
                    assert(line_views(card.lines@) =~= acc_cur.push(
                        (LineKind::PartOfSpeech, rest_v@),
                    ));
                }
            } else if is_aoristos_word(&word) {
                let text = string_from_chars(&rest_v);
                card.lines.push(CardLine { kind: LineKind::Aoristos, text });
                proof {
                    assert(line_views(card.lines@) =~= acc_cur.push((LineKind::Aoristos, rest_v@)));
                }
            } else {
                let word_s = string_from_chars(&word);
                match Language::from_abbreviation(word_s.as_str()) {
                    Some(l) => {
                        let rest_s = string_from_chars(&rest_v);
                        let text = l.transliterate(rest_s.as_str());
                        card.lines.push(CardLine { kind: LineKind::Meaning(l), text });
                        proof {
                            assert(line_views(card.lines@) =~= acc_cur.push(
                                (LineKind::Meaning(l), l.spec_transliterate(rest_v@)),
                            ));
                        }
                    },
                    None => {
                        return Err(
                            MathemaError::UnrecognizedLineKind {
                                source_line: parser.line_number(),
                                kind: word_s,
                            },
                        );
                    },
                }
            }
        }
        parser.read_next_line();
    }
    proof {
        let icur = parser.index as int;
        if icur < lv.len() {
            assert(lv[icur] == parser.spec_current_line());
        }
        assert(spec_parse_card(lv, icur, uuid_view(card.uuid), line_views(card.lines@))
            == (CardParse::Parsed {
            uuid: uuid_view(card.uuid),
            lines: line_views(card.lines@),
            next: icur,
        }));
    }
    Ok(card)
}

/// What one parsed card amounts to.
pub struct CardView {
    pub uuid: Option<u128>,
    pub lines: Seq<(LineKind, Seq<char>)>,
    /// Index of the card's first line.
    pub start: int,
}

/// The views of a list of parsed cards.
pub open spec fn card_views(cards: Seq<Card>) -> Seq<CardView> {
    Seq::new(
        cards.len(),
        |i: int|
            CardView {
                uuid: uuid_view(cards[i].uuid),
                lines: line_views(cards[i].lines@),
                start: cards[i].start_line - 1,
            },
    )
}

/// How reading a whole file ends.
pub enum CardsParse {
    Done(Seq<CardView>),
    /// Reading the card that starts at `at` failed.
    Failed { at: int, err: CardParse },
}

/// Reads every card of the file: blank lines are skipped, each
/// non-blank line opens a card.
pub open spec fn spec_parse_cards(lines: Seq<Seq<char>>, i: int, acc: Seq<CardView>) -> CardsParse
    decreases lines.len() - i,
    via spec_parse_cards_decreases
{
    if i < 0 || i >= lines.len() {
        CardsParse::Done(acc)
    } else if spec_trim(lines[i]).len() == 0 {
        spec_parse_cards(lines, i + 1, acc)
    } else {
        match spec_parse_card(lines, i, None, Seq::empty()) {
            CardParse::Parsed { uuid, lines: ls, next } => spec_parse_cards(
                lines,
                next,
                acc.push(CardView { uuid, lines: ls, start: i }),
            ),
            err => CardsParse::Failed { at: i, err },
        }
    }
}

#[via_fn]
proof fn spec_parse_cards_decreases(lines: Seq<Seq<char>>, i: int, acc: Seq<CardView>) {
    if 0 <= i < lines.len() && spec_trim(lines[i]).len() != 0 {
        lemma_parse_card_next(lines, i, None, Seq::empty());
    }
}

/// Reads a whole card file, handed as its lines.
pub fn parse_cards_file_from(source_file: &str, lines: Vec<String>) -> (r: Result<
    Vec<Card>,
    MathemaError,
>)
    requires
        lines@.len() < u64::MAX,
    ensures
        ({
            let outcome = spec_parse_cards(views_of(lines@), 0, Seq::empty());
            match r {
                Ok(cards) => match outcome {
                    CardsParse::Done(cvs) => card_views(cards@) == cvs,
                    _ => false,
                },
                Err(e) => match outcome {
                    CardsParse::Failed { at, err } => error_matches(err, e, source_file@, at),
                    _ => false,
                },
            }
        }),
{
    let ghost lv = views_of(lines@);
    let mut parser = LineParser::new(lines);
    let mut cards: Vec<Card> = Vec::new();
    proof {
        assert(card_views(cards@) =~= Seq::<CardView>::empty());
    }
    while !parser.eof()
        invariant
            parser.wf(),
            lv == views_of(parser.lines@),
            lv == views_of(lines@),
            parser.lines@.len() < u64::MAX,
            spec_parse_cards(lv, 0, Seq::empty()) == spec_parse_cards(
                lv,
                parser.index as int,
                card_views(cards@),
            ),
        decreases parser.lines@.len() - parser.index,
    {
        let ghost icur = parser.index as int;
        let ghost acc_cur = card_views(cards@);
        proof {
            assert(icur < lv.len());
            assert(lv[icur] == parser.spec_current_line());
        }
        if parser.current_line_is_blank() {
            parser.read_next_line();
        } else {
            proof {
                lemma_parse_card_next(lv, icur, None, Seq::empty());
            }
            match parse_card(source_file, &mut parser) {
                Ok(card) => {
                    cards.push(card);
                    proof {
                        assert(card_views(cards@) =~= acc_cur.push(
                            CardView {
                                uuid: uuid_view(cards@.last().uuid),
                                lines: line_views(cards@.last().lines@),
                                start: icur,
                            },
                        ));
                    }
                },
                Err(e) => {
                    proof {
                        assert(spec_parse_cards(lv, 0, Seq::empty()) == (CardsParse::Failed {
                            at: icur,
                            err: spec_parse_card(lv, icur, None, Seq::empty()),
                        }));
                    }
                    return Err(e);
                },
            }
        }
    }
    Ok(cards)
}

/// The word a line kind opens with in a card file.
pub open spec fn kind_word(k: LineKind) -> Seq<char> {
    match k {
        LineKind::Comment => seq!['#'],
        LineKind::Meaning(l) => l.spec_abbreviation(),
        LineKind::PartOfSpeech => seq!['p', 'o', 's'],
        LineKind::Aoristos => aoristos_word(),
    }
}

fn kind_word_exec(k: LineKind) -> (r: String)
    ensures
        r@ == kind_word(k),
{
    match k {
        LineKind::Comment => {
            let s = String::from_str("#");
            proof {
                reveal_strlit("#");
                assert(s@ =~= seq!['#']);
            }
            s
        },
        LineKind::Meaning(l) => String::from_str(l.abbreviation()),
        LineKind::PartOfSpeech => {
            let s = String::from_str("pos");
            proof {
                reveal_strlit("pos");
                assert(s@ =~= seq!['p', 'o', 's']);
            }
            s
        },
        LineKind::Aoristos => {
            let s = String::from_str(
                "\u{3b1}\u{3cc}\u{3c1}\u{3b9}\u{3c3}\u{3c4}\u{3bf}\u{3c2}",
            );
            proof {
                reveal_strlit("\u{3b1}\u{3cc}\u{3c1}\u{3b9}\u{3c3}\u{3c4}\u{3bf}\u{3c2}");
                assert(s@ =~= aoristos_word());
            }
            s
        },
    }
}

/// The text lines one card writes out: its id line when it has an id,
/// then one line per card line.
pub open spec fn spec_card_out(card: Card) -> Seq<Seq<char>> {
    let header: Seq<Seq<char>> = match card.uuid {
        None => Seq::empty(),
        Some(u) => seq![seq!['u', 'u', 'i', 'd', ' '] + crate::uuid::spec_uuid_text(u.bits)],
    };
    header + Seq::new(
        card.lines@.len(),
        |i: int| kind_word(card.lines@[i].kind) + seq![' '] + card.lines@[i].text@,
    )
}

/// The text lines a list of cards writes out, one blank line between
/// cards.
pub open spec fn spec_cards_out(cards: Seq<Card>) -> Seq<Seq<char>>
    decreases cards.len(),
{
    if cards.len() == 0 {
        Seq::empty()
    } else if cards.len() == 1 {
        spec_card_out(cards[0])
    } else {
        spec_cards_out(cards.drop_last()) + seq![Seq::<char>::empty()] + spec_card_out(
            cards.last(),
        )
    }
}

/// Renders the cards as the lines of a card file.
pub fn write_cards_to(cards: &Vec<Card>) -> (r: Vec<String>)
    ensures
        r@.len() == spec_cards_out(cards@).len(),
        forall|i: int|
            0 <= i < r@.len() ==> (#[trigger] r@[i])@ == spec_cards_out(cards@)[i],
{
    let mut r: Vec<String> = Vec::new();
    let mut i: usize = 0;
    while i < cards.len()
        invariant
            0 <= i <= cards@.len(),
            r@.len() == spec_cards_out(cards@.take(i as int)).len(),
            forall|j: int|
                0 <= j < r@.len() ==> (#[trigger] r@[j])@ == spec_cards_out(cards@.take(i as int))[j],
        decreases cards@.len() - i,
    {
        let ghost out_pre = spec_cards_out(cards@.take(i as int));
        if i > 0 {
            let blank = String::new();
            r.push(blank);
        }
        let card = &cards[i];
        match &card.uuid {
            Some(u) => {
                let mut line = String::from_str("uuid ");
                let ustr = crate::uuid::format_uuid(u.bits);
                line.append(ustr.as_str());
                proof {
                    reveal_strlit("uuid ");
                    assert(line@ =~= seq!['u', 'u', 'i', 'd', ' '] + crate::uuid::spec_uuid_text(
                        u.bits,
                    ));
                }
                r.push(line);
            },
            None => {},
        }
        let ghost base = r@.len() as int;
        let mut j: usize = 0;
        while j < card.lines.len()
            invariant
                0 <= j <= card.lines@.len(),
                0 <= i < cards@.len(),
                card == cards@[i as int],
                out_pre == spec_cards_out(cards@.take(i as int)),
                base == out_pre.len() + (if i > 0 {
                    1int
                } else {
                    0int
                }) + (if card.uuid is Some {
                    1int
                } else {
                    0int
                }),
                r@.len() == base + j,
                forall|q: int| 0 <= q < out_pre.len() ==> (#[trigger] r@[q])@ == out_pre[q],
                i > 0 ==> r@[out_pre.len() as int]@ == Seq::<char>::empty(),
                card.uuid is Some ==> (r@[base - 1])@ == seq!['u', 'u', 'i', 'd', ' ']
                    + crate::uuid::spec_uuid_text(card.uuid.unwrap().bits),
                forall|q: int|
                    0 <= q < j ==> (#[trigger] r@[base + q])@ == kind_word(card.lines@[q].kind)
                        + seq![' '] + card.lines@[q].text@,
            decreases card.lines@.len() - j,
        {
            let mut line = kind_word_exec(card.lines[j].kind);
            line.append(" ");
            line.append(card.lines[j].text.as_str());
            proof {
                reveal_strlit(" ");
                assert(" "@ =~= seq![' ']);
                assert(line@ =~= kind_word(card.lines@[j as int].kind) + seq![' ']
                    + card.lines@[j as int].text@);
            }
            r.push(line);
            j += 1;
        }
        proof {
            let taken = cards@.take(i + 1);
            assert(taken.drop_last() =~= cards@.take(i as int));
            assert(taken.last() == cards@[i as int]);
            let co = spec_card_out(cards@[i as int]);
            let sep = spec_cards_out(taken);
            if i > 0 {
                assert(sep =~= out_pre + seq![Seq::<char>::empty()] + co);
            } else {
                assert(taken =~= seq![cards@[0]]);
                assert(sep == co);
                assert(out_pre.len() == 0);
            }
            let hlen: int = if card.uuid is Some {
                1int
            } else {
                0int
            };
            assert(co.len() == hlen + card.lines@.len());
            assert forall|q: int| 0 <= q < r@.len() implies (#[trigger] r@[q])@ == sep[q] by {
                let cb = base - hlen;
                if q < out_pre.len() {
                    assert(sep[q] == out_pre[q]);
                } else if i > 0 && q == out_pre.len() {
                    assert(sep[q] == Seq::<char>::empty());
                } else {
                    assert(sep[q] == co[q - cb]);
                    if card.uuid is Some && q == cb {
                        assert(co[0] == seq!['u', 'u', 'i', 'd', ' '] + crate::uuid::spec_uuid_text(
                            card.uuid.unwrap().bits,
                        ));
                    } else {
                        assert(co[q - cb] == kind_word(card.lines@[q - base].kind) + seq![' ']
                            + card.lines@[q - base].text@);
                        assert(r@[base + (q - base)]@ == kind_word(card.lines@[q - base].kind)
                            + seq![' '] + card.lines@[q - base].text@);
                    }
                }
            }
        }
        i += 1;
    }
    proof {
        assert(cards@.take(cards@.len() as int) =~= cards@);
    }
    r
}

/// Whether some entry of the card map carries id `u`.
pub open spec fn map_has_uuid(m: Seq<(Uuid, Card)>, u: Uuid) -> bool {
    exists|i: int| 0 <= i < m.len() && (#[trigger] m[i]).0 == u
}

/// Folds parsed cards into a per-id map: the first card that claims an
/// id keeps it, later claimants are reported as duplicates, and cards
/// without an id are passed over.
pub open spec fn spec_collect_cards(cards: Seq<Card>) -> (Seq<(Uuid, Card)>, Seq<Uuid>)
    decreases cards.len(),
{
    if cards.len() == 0 {
        (Seq::empty(), Seq::empty())
    } else {
        let (m, d) = spec_collect_cards(cards.drop_last());
        match cards.last().uuid {
            None => (m, d),
            Some(u) => if map_has_uuid(m, u) {
                (m, d.push(u))
            } else {
                (m.push((u, cards.last())), d)
            },
        }
    }
}

/// The collected map names each id once.
pub proof fn lemma_collect_cards_unique(cards: Seq<Card>)
    ensures
        forall|i: int, j: int|
            0 <= i < j < spec_collect_cards(cards).0.len() ==> (#[trigger] spec_collect_cards(
                cards,
            ).0[i]).0 != (#[trigger] spec_collect_cards(cards).0[j]).0,
    decreases cards.len(),
{
    if cards.len() > 0 {
        lemma_collect_cards_unique(cards.drop_last());
        let (m, d) = spec_collect_cards(cards.drop_last());
        match cards.last().uuid {
            None => {},
            Some(u) => {
                if !map_has_uuid(m, u) {
                    let m2 = spec_collect_cards(cards).0;
                    assert forall|i: int, j: int|
                        0 <= i < j < m2.len() implies (#[trigger] m2[i]).0 != (
                        #[trigger] m2[j]).0 by {
                        if j == m2.len() - 1 {
                            assert(m2[i] == m[i]);
                        } else {
                            assert(m2[i] == m[i]);
                            assert(m2[j] == m[j]);
                        }
                    }
                }
            },
        }
    }
}

fn map_has_uuid_exec(m: &Vec<(Uuid, Card)>, u: Uuid) -> (r: bool)
    ensures
        r == map_has_uuid(m@, u),
{
    let mut i: usize = 0;
    while i < m.len()
        invariant
            0 <= i <= m@.len(),
            forall|j: int| 0 <= j < i ==> (#[trigger] m@[j]).0 != u,
        decreases m@.len() - i,
    {
        if m[i].0 == u {
            return true;
        }
        i += 1;
    }
    false
}

/// Builds the per-id card map and the list of duplicated ids.
pub fn collect_cards(cards: Vec<Card>) -> (r: (Vec<(Uuid, Card)>, Vec<Uuid>))
    ensures
        r.0@ == spec_collect_cards(cards@).0,
        r.1@ == spec_collect_cards(cards@).1,
        forall|i: int, j: int|
            0 <= i < j < r.0@.len() ==> (#[trigger] r.0@[i]).0 != (#[trigger] r.0@[j]).0,
{
    let ghost orig = cards@;
    let mut rest = cards;
    let mut m: Vec<(Uuid, Card)> = Vec::new();
    let mut d: Vec<Uuid> = Vec::new();
    let ghost mut k: int = 0;
    while rest.len() > 0
        invariant
            0 <= k <= orig.len(),
            rest@ == orig.skip(k),
            m@ == spec_collect_cards(orig.take(k)).0,
            d@ == spec_collect_cards(orig.take(k)).1,
        decreases rest@.len(),
    {
        let card = rest.remove(0);
        proof {
            assert(card == orig[k]);
            assert(rest@ =~= orig.skip(k + 1));
            assert(orig.take(k + 1).drop_last() =~= orig.take(k));
            assert(orig.take(k + 1).last() == orig[k]);
        }
        match &card.uuid {
            None => {},
            Some(u) => {
                let uu = *u;
                if map_has_uuid_exec(&m, uu) {
                    d.push(uu);
                } else {
                    m.push((uu, card));
                }
            },
        }
        proof {
            k = k + 1;
        }
    }
    proof {
        assert(orig.take(orig.len() as int) =~= orig);
        lemma_collect_cards_unique(orig);
    }
    (m, d)
}

/// How many cards still lack an id.
pub open spec fn spec_missing_uuids(cards: Seq<Card>) -> int
    decreases cards.len(),
{
    if cards.len() == 0 {
        0
    } else {
        spec_missing_uuids(cards.drop_last()) + if cards.last().uuid is None {
            1int
        } else {
            0int
        }
    }
}

/// The first card that already carries an id, if any: adding a fresh
/// file refuses such cards.
pub fn first_preexisting_uuid(cards: &Vec<Card>) -> (r: Option<u64>)
    ensures
        match r {
            Some(line) => exists|i: int|
                0 <= i < cards@.len() && (#[trigger] cards@[i]).uuid is Some && cards@[i].start_line
                    == line,
            None => forall|i: int| 0 <= i < cards@.len() ==> (#[trigger] cards@[i]).uuid is None,
        },
{
    let mut i: usize = 0;
    while i < cards.len()
        invariant
            0 <= i <= cards@.len(),
            forall|j: int| 0 <= j < i ==> (#[trigger] cards@[j]).uuid is None,
        decreases cards@.len() - i,
    {
        if cards[i].uuid.is_some() {
            return Some(cards[i].start_line);
        }
        i += 1;
    }
    None
}

/// Mints an id for every card that lacks one; says how many it minted.
/// Ids already assigned, line texts and positions all keep.
pub fn assign_fresh_uuids(cards: &mut Vec<Card>) -> (n: usize)
    requires
        old(cards)@.len() <= usize::MAX,
    ensures
        final(cards)@.len() == old(cards)@.len(),
        forall|i: int|
            0 <= i < final(cards)@.len() ==> {
                &&& (#[trigger] final(cards)@[i]).uuid is Some
                &&& (old(cards)@[i].uuid is Some ==> final(cards)@[i].uuid == old(cards)@[i].uuid)
                &&& final(cards)@[i].start_line == old(cards)@[i].start_line
                &&& line_views(final(cards)@[i].lines@) == line_views(old(cards)@[i].lines@)
            },
        n == spec_missing_uuids(old(cards)@),
{
    let mut n: usize = 0;
    let mut i: usize = 0;
    while i < cards.len()
        invariant
            0 <= i <= cards@.len(),
            cards@.len() == old(cards)@.len(),
            n == spec_missing_uuids(old(cards)@.take(i as int)),
            n <= i,
            forall|j: int|
                i <= j < cards@.len() ==> #[trigger] cards@[j] == old(cards)@[j],
            forall|j: int|
                0 <= j < i ==> {
                    &&& (#[trigger] cards@[j]).uuid is Some
                    &&& (old(cards)@[j].uuid is Some ==> cards@[j].uuid == old(cards)@[j].uuid)
                    &&& cards@[j].start_line == old(cards)@[j].start_line
                    &&& line_views(cards@[j].lines@) == line_views(old(cards)@[j].lines@)
                },
        decreases cards@.len() - i,
    {
        proof {
            assert(old(cards)@.take(i + 1).drop_last() =~= old(cards)@.take(i as int));
            assert(old(cards)@.take(i + 1).last() == old(cards)@[i as int]);
        }
        if cards[i].uuid.is_none() {
            let fresh = Uuid::fresh();
            let mut lines_moved: Vec<CardLine> = Vec::new();
            core::mem::swap(&mut lines_moved, &mut cards[i].lines);
            let start_line = cards[i].start_line;
            cards.set(
                i,
                Card { uuid: Some(fresh), start_line, lines: lines_moved },
            );
            n = n + 1;
        }
        i += 1;
    }
    proof {
        assert(old(cards)@.take(old(cards)@.len() as int) =~= old(cards)@);
    }
    n
}

} // verus!
