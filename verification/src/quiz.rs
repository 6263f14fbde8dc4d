//! The quiz session driver and its answer-matching rule.
//!
//! Matching an answer against an expected line: parenthetical
//! annotations are stripped from the expected text, and the trimmed
//! answer must equal the trimmed remainder, or any one of its
//! comma-separated alternatives.

use vstd::prelude::*;
use crate::cards::Card;
use crate::db::{Database, QuestionKind, QuestionRecord, QuestionResult, MAX_RECORD_DATE};
use crate::language::Language;
use crate::text::{chars_of_str, spec_trim, trim_chars};
use crate::uuid::Uuid;

verus! {

/// First index of `c` in `s`, or the length when absent.
pub open spec fn first_idx(s: Seq<char>, c: char) -> int
    decreases s.len(),
{
    if s.len() == 0 {
        0
    } else if s[0] == c {
        0
    } else {
        1 + first_idx(s.drop_first(), c)
    }
}

/// Last index of `c` in `s`, or `-1` when absent.
pub open spec fn last_idx(s: Seq<char>, c: char) -> int
    decreases s.len(),
{
    if s.len() == 0 {
        -1
    } else if s.last() == c {
        s.len() - 1
    } else {
        last_idx(s.drop_last(), c)
    }
}

pub proof fn lemma_first_idx(s: Seq<char>, c: char)
    ensures
        0 <= first_idx(s, c) <= s.len(),
        first_idx(s, c) < s.len() ==> s[first_idx(s, c)] == c,
        forall|j: int| 0 <= j < first_idx(s, c) ==> s[j] != c,
    decreases s.len(),
{
    if s.len() > 0 && s[0] != c {
        lemma_first_idx(s.drop_first(), c);
        let d = s.drop_first();
        assert forall|j: int| 0 <= j < first_idx(s, c) implies s[j] != c by {
            if j > 0 {
                assert(s[j] == d[j - 1]);
            }
        }
        if first_idx(s, c) < s.len() {
            assert(s[first_idx(s, c)] == d[first_idx(d, c)]);
        }
    }
}

pub proof fn lemma_last_idx(s: Seq<char>, c: char)
    ensures
        -1 <= last_idx(s, c) < s.len(),
        last_idx(s, c) >= 0 ==> s[last_idx(s, c)] == c,
        forall|j: int| last_idx(s, c) < j < s.len() ==> s[j] != c,
    decreases s.len(),
{
    if s.len() > 0 && s.last() != c {
        lemma_last_idx(s.drop_last(), c);
        let d = s.drop_last();
        assert forall|j: int| last_idx(s, c) < j < s.len() implies s[j] != c by {
            if j < s.len() - 1 {
                assert(s[j] == d[j]);
            }
        }
        if last_idx(s, c) >= 0 {
            assert(s[last_idx(s, c)] == d[last_idx(d, c)]);
        }
    }
}

/// Strips one parenthetical span: everything from the first `(` to the
/// last `)`, when the two appear in that order; otherwise unchanged.
pub open spec fn spec_strip_parens(s: Seq<char>) -> Seq<char> {
    let f = first_idx(s, '(');
    let l = last_idx(s, ')');
    if f < s.len() && 0 <= l && f < l {
        s.take(f) + s.skip(l + 1)
    } else {
        s
    }
}

/// The comma-separated alternatives of an expected line.
pub open spec fn spec_split_commas(s: Seq<char>) -> Seq<Seq<char>>
    decreases s.len(),
    via spec_split_commas_decreases
{
    let f = first_idx(s, ',');
    if f >= s.len() {
        seq![s]
    } else {
        seq![s.take(f)] + spec_split_commas(s.skip(f + 1))
    }
}

#[via_fn]
proof fn spec_split_commas_decreases(s: Seq<char>) {
    lemma_first_idx(s, ',');
}

/// Whether an answer counts for an expected line: after stripping the
/// expected line's parenthetical, the trimmed answer equals the trimmed
/// remainder, or any one trimmed comma-separated alternative of it.
pub open spec fn spec_check_user_response(expected: Seq<char>, user: Seq<char>) -> bool {
    let u = spec_trim(user);
    let e = spec_strip_parens(expected);
    spec_trim(e) == u || exists|k: int|
        0 <= k < spec_split_commas(e).len() && spec_trim(#[trigger] spec_split_commas(e)[k]) == u
}

/// Strips one parenthetical span from a character buffer.
fn strip_parens(v: &Vec<char>) -> (r: Vec<char>)
    ensures
        r@ == spec_strip_parens(v@),
{
    proof {
        lemma_first_idx(v@, '(');
        lemma_last_idx(v@, ')');
    }
    let n = v.len();
    let mut f: usize = 0;
    while f < n && v[f] != '('
        invariant
            0 <= f <= n,
            n == v@.len(),
            forall|j: int| 0 <= j < f ==> v@[j] != '(',
        decreases n - f,
    {
        f += 1;
    }
    proof {
        assert(f == first_idx(v@, '(')) by {
            lemma_first_idx(v@, '(');
            if f < n {
                assert(v@[f as int] == '(');
            }
        }
    }
    let mut l: usize = n;
    while l > 0 && v[l - 1] != ')'
        invariant
            0 <= l <= n,
            n == v@.len(),
            forall|j: int| l <= j < n ==> v@[j] != ')',
        decreases l,
    {
        l -= 1;
    }
    proof {
        assert(l - 1 == last_idx(v@, ')')) by {
            lemma_last_idx(v@, ')');
            if l > 0 {
                assert(v@[l - 1] == ')');
            }
        }
    }
    if f < n && l >= 1 && f < l - 1 {
        let mut r: Vec<char> = Vec::new();
        let mut i: usize = 0;
        while i < f
            invariant
                0 <= i <= f <= n,
                n == v@.len(),
                r@ == v@.take(i as int),
            decreases f - i,
        {
            r.push(v[i]);
            proof {
                assert(r@ =~= v@.take(i + 1));
            }
            i += 1;
        }
        let mut j: usize = l;
        while j < n
            invariant
                f <= n,
                l <= j <= n,
                n == v@.len(),
                r@ == v@.take(f as int) + v@.subrange(l as int, j as int),
            decreases n - j,
        {
            r.push(v[j]);
            proof {
                assert(r@ =~= v@.take(f as int) + v@.subrange(l as int, j + 1));
            }
            j += 1;
        }
        proof {
            assert(v@.subrange(l as int, n as int) =~= v@.skip(l as int));
            assert(r@ =~= spec_strip_parens(v@));
        }
        r
    } else {
        let mut r: Vec<char> = Vec::new();
        let mut i: usize = 0;
        while i < n
            invariant
                0 <= i <= n,
                n == v@.len(),
                r@ == v@.take(i as int),
            decreases n - i,
        {
            r.push(v[i]);
            proof {
                assert(r@ =~= v@.take(i + 1));
            }
            i += 1;
        }
        proof {
            assert(v@.take(n as int) =~= v@);
        }
        r
    }
}

/// Whether two character buffers hold the same text.
fn chars_eq(a: &Vec<char>, b: &Vec<char>) -> (r: bool)
    ensures
        r == (a@ == b@),
{
    if a.len() != b.len() {
        return false;
    }
    let mut i: usize = 0;
    while i < a.len()
        invariant
            0 <= i <= a@.len(),
            a@.len() == b@.len(),
            forall|j: int| 0 <= j < i ==> a@[j] == b@[j],
        decreases a@.len() - i,
    {
        if a[i] != b[i] {
            return false;
        }
        i += 1;
    }
    proof {
        assert(a@ =~= b@);
    }
    true
}

/// Whether the answer counts for the expected line.
pub fn check_user_response(expected_response: &str, user_response: &str) -> (r: bool)
    ensures
        r == spec_check_user_response(expected_response@, user_response@),
{
    let uv = chars_of_str(user_response);
    let u = trim_chars(&uv);
    let ev = chars_of_str(expected_response);
    let e = strip_parens(&ev);
    let et = trim_chars(&e);
    if chars_eq(&et, &u) {
        return true;
    }
    // walk the comma-separated alternatives of the stripped text
    let mut start: usize = 0;
    let mut i: usize = 0;
    proof {
        assert(e@.skip(0) =~= e@);
    }
    while i < e.len()
        invariant
            0 <= start <= i <= e@.len(),
            start == 0 || e@[start - 1] == ',',
            u@ == spec_trim(uv@),
            uv@ == user_response@,
            e@ == spec_strip_parens(expected_response@),
            forall|j: int| start <= j < i ==> e@[j] != ',',
            // every alternative before the current segment failed
            (exists|k: int|
                0 <= k < spec_split_commas(e@).len() && spec_trim(
                    #[trigger] spec_split_commas(e@)[k],
                ) == u@) ==> exists|k: int|
                0 <= k < spec_split_commas(e@.skip(start as int)).len() && spec_trim(
                    #[trigger] spec_split_commas(e@.skip(start as int))[k],
                ) == u@,
        decreases e@.len() - i,
    {
        if e[i] == ',' {
            // segment [start, i) is one alternative
            let mut piece: Vec<char> = Vec::new();
            let mut p: usize = start;
            while p < i
                invariant
                    start <= p <= i <= e@.len(),
                    piece@ == e@.subrange(start as int, p as int),
                decreases i - p,
            {
                piece.push(e[p]);
                proof {
                    assert(piece@ =~= e@.subrange(start as int, p + 1));
                }
                p += 1;
            }
            let pt = trim_chars(&piece);
            proof {
                let tail = e@.skip(start as int);
                lemma_first_idx(tail, ',');
                assert forall|j: int| 0 <= j < i - start implies tail[j] != ',' by {
                    assert(tail[j] == e@[start + j]);
                }
                assert(tail[i - start as int] == ',');
                assert(first_idx(tail, ',') == i - start as int);
                assert(tail.take(i - start as int) =~= e@.subrange(start as int, i as int));
                assert(tail.skip(i - start + 1) =~= e@.skip(i + 1));
                assert(spec_split_commas(tail) == seq![e@.subrange(start as int, i as int)]
                    + spec_split_commas(e@.skip(i + 1)));
            }
            if chars_eq(&pt, &u) {
                proof {
                    let tail = e@.skip(start as int);
                    assert(spec_split_commas(tail)[0] == e@.subrange(start as int, i as int));
                    assert(spec_trim(spec_split_commas(tail)[0]) == u@);
                    if start == 0 {
                        assert(e@.skip(0) =~= e@);
                    }
                    // lift the witness back to the whole split
                    lemma_split_commas_suffix(e@, start as int, u@);
                }
                return true;
            }
            proof {
                let tail = e@.skip(start as int);
                let tail2 = e@.skip(i + 1);
                assert forall|k: int|
                    0 <= k < spec_split_commas(tail2).len() && spec_trim(
                        #[trigger] spec_split_commas(tail2)[k],
                    ) == u@ implies exists|k2: int|
                    0 <= k2 < spec_split_commas(tail).len() && spec_trim(
                        #[trigger] spec_split_commas(tail)[k2],
                    ) == u@ by {
                    assert(spec_split_commas(tail)[k + 1] == spec_split_commas(tail2)[k]);
                }
                assert forall|k: int|
                    0 <= k < spec_split_commas(tail).len() && spec_trim(
                        #[trigger] spec_split_commas(tail)[k],
                    ) == u@ implies exists|k2: int|
                    0 <= k2 < spec_split_commas(tail2).len() && spec_trim(
                        #[trigger] spec_split_commas(tail2)[k2],
                    ) == u@ by {
                    if k == 0 {
                        assert(spec_trim(e@.subrange(start as int, i as int)) == u@);
                        assert(false);
                    } else {
                        assert(spec_split_commas(tail2)[k - 1] == spec_split_commas(tail)[k]);
                    }
                }
            }
            start = i + 1;
        }
        i += 1;
    }
    // last alternative: [start, len)
    let mut piece: Vec<char> = Vec::new();
    let mut p: usize = start;
    while p < e.len()
        invariant
            start <= p <= e@.len(),
            piece@ == e@.subrange(start as int, p as int),
        decreases e@.len() - p,
    {
        piece.push(e[p]);
        proof {
            assert(piece@ =~= e@.subrange(start as int, p + 1));
        }
        p += 1;
    }
    let pt = trim_chars(&piece);
    proof {
        let tail = e@.skip(start as int);
        lemma_first_idx(tail, ',');
        assert forall|j: int| 0 <= j < tail.len() implies tail[j] != ',' by {
            assert(tail[j] == e@[start + j]);
        }
        assert(first_idx(tail, ',') == tail.len());
        assert(spec_split_commas(tail) == seq![tail]);
        assert(tail =~= e@.subrange(start as int, e@.len() as int));
    }
    if chars_eq(&pt, &u) {
        proof {
            let tail = e@.skip(start as int);
            assert(spec_trim(spec_split_commas(tail)[0]) == u@);
            lemma_split_commas_suffix(e@, start as int, u@);
        }
        return true;
    }
    proof {
        let tail = e@.skip(start as int);
        assert forall|k: int|
            0 <= k < spec_split_commas(tail).len() implies spec_trim(
            #[trigger] spec_split_commas(tail)[k],
        ) != u@ by {
            assert(k == 0);
        }
    }
    false
}

/// The question kinds this system knows how to ask for a language.
pub fn suitable_questions(language: Language) -> (r: Option<Vec<QuestionKind>>)
    ensures
        match language {
            Language::Greek => match r {
                Some(v) => v@ == seq![
                    QuestionKind::Translate { from: Language::English, to: Language::Greek },
                    QuestionKind::Translate { from: Language::Greek, to: Language::English },
                ],
                None => false,
            },
            Language::English => r is None,
        },
{
    match language {
        Language::Greek => {
            let mut v: Vec<QuestionKind> = Vec::new();
            v.push(QuestionKind::Translate { from: Language::English, to: Language::Greek });
            v.push(QuestionKind::Translate { from: Language::Greek, to: Language::English });
            proof {
                assert(v@ =~= seq![
                    QuestionKind::Translate { from: Language::English, to: Language::Greek },
                    QuestionKind::Translate { from: Language::Greek, to: Language::English },
                ]);
            }
            Some(v)
        },
        Language::English => None,
    }
}

/// The expected lines that no collected answer has matched yet.
pub open spec fn unmatched(remaining: Seq<String>, u: Seq<char>) -> Seq<String>
    decreases remaining.len(),
{
    if remaining.len() == 0 {
        Seq::empty()
    } else {
        let rest = unmatched(remaining.drop_last(), u);
        if spec_check_user_response(remaining.last()@, u) {
            rest
        } else {
            rest.push(remaining.last())
        }
    }
}

pub proof fn lemma_unmatched_len(remaining: Seq<String>, u: Seq<char>)
    ensures
        unmatched(remaining, u).len() <= remaining.len(),
    decreases remaining.len(),
{
    if remaining.len() > 0 {
        lemma_unmatched_len(remaining.drop_last(), u);
    }
}

/// Drops every expected line the answer matches.
fn retain_unmatched(remaining: &Vec<String>, user: &str) -> (r: Vec<String>)
    ensures
        r@ == unmatched(remaining@, user@),
{
    let mut r: Vec<String> = Vec::new();
    let mut i: usize = 0;
    while i < remaining.len()
        invariant
            0 <= i <= remaining@.len(),
            r@ == unmatched(remaining@.take(i as int), user@),
        decreases remaining@.len() - i,
    {
        proof {
            assert(remaining@.take(i + 1).drop_last() =~= remaining@.take(i as int));
            assert(remaining@.take(i + 1).last() == remaining@[i as int]);
        }
        if !check_user_response(remaining[i].as_str(), user) {
            let s = remaining[i].clone();
            r.push(s);
        }
        i += 1;
    }
    proof {
        assert(remaining@.take(remaining@.len() as int) =~= remaining@);
    }
    r
}

/// An element-by-element copy of a list of lines.
fn copy_strings(v: &Vec<String>) -> (r: Vec<String>)
    ensures
        r@ == v@,
{
    let mut r: Vec<String> = Vec::new();
    let mut i: usize = 0;
    while i < v.len()
        invariant
            0 <= i <= v@.len(),
            r@ == v@.take(i as int),
        decreases v@.len() - i,
    {
        let s = v[i].clone();
        r.push(s);
        proof {
            assert(r@ =~= v@.take(i + 1));
        }
        i += 1;
    }
    proof {
        assert(v@.take(v@.len() as int) =~= v@);
    }
    r
}

/// The first card of the map that carries `uuid`.
pub open spec fn spec_find_card(cards: Seq<(Uuid, Card)>, uuid: Uuid) -> Option<Card>
    decreases cards.len(),
{
    if cards.len() == 0 {
        None
    } else if cards[0].0 == uuid {
        Some(cards[0].1)
    } else {
        spec_find_card(cards.drop_first(), uuid)
    }
}

proof fn lemma_find_card_at(cards: Seq<(Uuid, Card)>, i: int, uuid: Uuid)
    requires
        0 <= i < cards.len(),
        cards[i].0 == uuid,
        forall|j: int| 0 <= j < i ==> (#[trigger] cards[j]).0 != uuid,
    ensures
        spec_find_card(cards, uuid) == Some(cards[i].1),
    decreases i,
{
    if i > 0 {
        lemma_find_card_at(cards.drop_first(), i - 1, uuid);
    }
}

proof fn lemma_find_card_absent(cards: Seq<(Uuid, Card)>, uuid: Uuid)
    requires
        forall|j: int| 0 <= j < cards.len() ==> (#[trigger] cards[j]).0 != uuid,
    ensures
        spec_find_card(cards, uuid) is None,
    decreases cards.len(),
{
    if cards.len() > 0 {
        lemma_find_card_absent(cards.drop_first(), uuid);
    }
}

/// Looks a card up by id.
pub fn find_card<'a>(cards: &'a Vec<(Uuid, Card)>, uuid: Uuid) -> (r: Option<&'a Card>)
    ensures
        match r {
            Some(c) => spec_find_card(cards@, uuid) == Some(*c),
            None => spec_find_card(cards@, uuid) is None,
        },
{
    let mut i: usize = 0;
    while i < cards.len()
        invariant
            0 <= i <= cards@.len(),
            forall|j: int| 0 <= j < i ==> (#[trigger] cards@[j]).0 != uuid,
        decreases cards@.len() - i,
    {
        if cards[i].0 == uuid {
            proof {
                lemma_find_card_at(cards@, i as int, uuid);
            }
            return Some(&cards[i].1);
        }
        i += 1;
    }
    proof {
        lemma_find_card_absent(cards@, uuid);
    }
    None
}

/// The views of a list of lines.
pub open spec fn string_views(v: Seq<String>) -> Seq<Seq<char>> {
    Seq::new(v.len(), |i: int| v[i]@)
}

/// Builds the session's items from the queue: each queued pair with
/// the card's expected response lines for its question kind.  `None`
/// when a queued card is missing from the map, which loading promises
/// not to produce.
pub fn build_quiz_items(
    queue: &Vec<(Uuid, QuestionKind)>,
    cards: &Vec<(Uuid, Card)>,
) -> (r: Option<Vec<QuizItem>>)
    ensures
        match r {
            Some(items) => {
                &&& items@.len() == queue@.len()
                &&& forall|k: int|
                    0 <= k < items@.len() ==> {
                        let item = #[trigger] items@[k];
                        &&& item.uuid == queue@[k].0
                        &&& item.kind == queue@[k].1
                        &&& match spec_find_card(cards@, queue@[k].0) {
                            Some(c) => string_views(item.expected@) == crate::cards::spec_lines_with_kind(
                                c.lines@,
                                match queue@[k].1 {
                                    QuestionKind::Translate { from, to } => crate::cards::LineKind::Meaning(
                                        to,
                                    ),
                                },
                            ),
                            None => false,
                        }
                    }
            },
            None => exists|k: int|
                0 <= k < queue@.len() && spec_find_card(cards@, (#[trigger] queue@[k]).0) is None,
        },
{
    let mut items: Vec<QuizItem> = Vec::new();
    let mut k: usize = 0;
    while k < queue.len()
        invariant
            0 <= k <= queue@.len(),
            items@.len() == k,
            forall|q: int|
                0 <= q < k ==> {
                    let item = #[trigger] items@[q];
                    &&& item.uuid == queue@[q].0
                    &&& item.kind == queue@[q].1
                    &&& match spec_find_card(cards@, queue@[q].0) {
                        Some(c) => string_views(item.expected@) == crate::cards::spec_lines_with_kind(
                            c.lines@,
                            match queue@[q].1 {
                                QuestionKind::Translate { from, to } => crate::cards::LineKind::Meaning(
                                    to,
                                ),
                            },
                        ),
                        None => false,
                    }
                },
        decreases queue@.len() - k,
    {
        let (uuid, kind) = queue[k];
        match find_card(cards, uuid) {
            None => {
                return None;
            },
            Some(card) => {
                let expected = card.lines_with_kind(kind.response_line_kind());
                proof {
                    assert(string_views(expected@) =~= crate::cards::spec_lines_with_kind(
                        card.lines@,
                        match kind {
                            QuestionKind::Translate { from, to } => crate::cards::LineKind::Meaning(
                                to,
                            ),
                        },
                    ));
                }
                items.push(QuizItem { uuid, kind, expected });
            },
        }
        k += 1;
    }
    Some(items)
}

/// One queued question: the card, the question kind, and the card's
/// expected response lines for that kind.
pub struct QuizItem {
    pub uuid: Uuid,
    pub kind: QuestionKind,
    pub expected: Vec<String>,
}

/// Where the driver stands inside the current item.
pub enum QuizState {
    /// About to check the time budget before the item at `pos`.
    TimeCheck,
    /// The time budget ran out; waiting to hear about an extension.
    AwaitExtension,
    /// Collecting the user's responses to the current prompt.
    Collecting { remaining: Vec<String>, correct: Vec<String>, wrong: Vec<String>, counter: usize },
    /// Some expected lines were missed; waiting for the user's own
    /// grade.
    AwaitResult,
    /// Corrective loop: the user repeats each expected line back.
    Repeat { result: QuestionResult, idx: usize },
    /// The session is over.
    Done,
}

/// What the surrounding loop must do next, through its presentation.
pub enum QuizAction {
    /// Tell the user the time budget ran out and ask for more minutes.
    QuizExpired { elapsed: i64, cards_remaining: usize },
    /// Present the prompt for the item, then read response number one.
    Prompt { item: usize },
    /// Read one more response for the item.
    ReadResponse { item: usize, counter: usize },
    /// Show the breakdown and ask the user to grade themselves.
    ReadResult { item: usize, missing: Vec<String>, correct: Vec<String>, incorrect: Vec<String> },
    /// Ask the user to repeat one expected line back.
    RepeatBack { item: usize, expected: String },
    /// Clear the presentation; the item is recorded.
    Cleanup { item: usize },
    /// Nothing is left to do.
    Finished,
}

/// What came back from the presentation for the pending action.
pub enum QuizEvent {
    /// Kick-off, or the acknowledgement of a prompt-free action.
    Started,
    /// A response line, or `None` for an empty/terminating response.
    Response(Option<String>),
    /// The user's own grade.
    ResultChosen(QuestionResult),
    /// Extra minutes granted, or `None` to stop.
    Extension(Option<i64>),
}

/// One store mutation: exactly one record appended for `(uuid, kind)`,
/// every other history untouched.
pub open spec fn recorded(
    db0: Database,
    db1: Database,
    uuid: Uuid,
    kind: QuestionKind,
    result: QuestionResult,
    now: i64,
) -> bool {
    &&& db1.spec_questions(uuid, kind) == db0.spec_questions(uuid, kind).push(
        QuestionRecord { date: now, result },
    )
    &&& forall|u2: Uuid, k2: QuestionKind|
        u2 != uuid || k2 != kind ==> #[trigger] db1.spec_questions(u2, k2) == db0.spec_questions(
            u2,
            k2,
        )
    &&& db1.card_files@ == db0.card_files@
}

/// The step that opens the item at the cursor: a fresh collection
/// state over the card's expected lines, the prompt handed out, the
/// cursor untouched.
pub open spec fn opens_item(pre: QuizDriver, post: QuizDriver, a: QuizAction) -> bool {
    &&& post.pos == pre.pos
    &&& post.state matches QuizState::Collecting { remaining, correct, wrong, counter }
        && remaining@ == pre.items@[pre.pos as int].expected@ && correct@.len() == 0
        && wrong@.len() == 0 && counter == 1
    &&& a == (QuizAction::Prompt { item: pre.pos })
}

/// The step that records the outcome `res` for the item at the cursor
/// and moves past it, clocks untouched.
pub open spec fn records_outcome(
    pre: QuizDriver,
    post: QuizDriver,
    db0: Database,
    db1: Database,
    now: i64,
    a: QuizAction,
    res: QuestionResult,
) -> bool {
    &&& recorded(
        db0,
        db1,
        pre.items@[pre.pos as int].uuid,
        pre.items@[pre.pos as int].kind,
        res,
        now,
    )
    &&& post.pos == pre.pos + 1
    &&& post.state is TimeCheck
    &&& post.start_time == pre.start_time
    &&& post.max_duration == pre.max_duration
    &&& a == (QuizAction::Cleanup { item: pre.pos })
}

/// How collection closes over the lists it gathered: an empty missing
/// set auto-grades `Yes`; otherwise exactly the missing, correct and
/// incorrect lists go out for grading, and nothing is recorded yet.
pub open spec fn closes_collection(
    pre: QuizDriver,
    post: QuizDriver,
    db0: Database,
    db1: Database,
    now: i64,
    a: QuizAction,
    rem2: Seq<String>,
    correct2: Seq<String>,
    wrong2: Seq<String>,
) -> bool {
    if rem2.len() == 0 {
        records_outcome(pre, post, db0, db1, now, a, QuestionResult::Yes)
    } else {
        &&& post.pos == pre.pos
        &&& post.state is AwaitResult
        &&& post.start_time == pre.start_time
        &&& post.max_duration == pre.max_duration
        &&& a matches QuizAction::ReadResult { item, missing, correct, incorrect } && item
            == pre.pos && missing@ == rem2 && correct@ == correct2 && incorrect@ == wrong2
        &&& db1 == db0
    }
}

/// The whole decision table of one protocol step: the time check and
/// extension between items, the response collection with its exact
/// bookkeeping and buckets, the self-grading whose chosen grade is
/// what gets recorded, and the corrective repeat-back loop that walks
/// the expected lines in card order without touching the grade.
pub open spec fn step_relation(
    pre: QuizDriver,
    post: QuizDriver,
    db0: Database,
    db1: Database,
    event: QuizEvent,
    now: i64,
    a: QuizAction,
) -> bool {
    match pre.state {
        QuizState::TimeCheck => {
            if pre.pos >= pre.items@.len() {
                // nothing left: the session is over, the store untouched
                &&& post.state is Done
                &&& a is Finished
                &&& db1 == db0
            } else if now - pre.start_time > pre.max_duration {
                // the budget ran out at an item boundary: nothing is
                // recorded; the exact elapsed time and count go out
                &&& post.state is AwaitExtension
                &&& post.pos == pre.pos
                &&& post.start_time == pre.start_time
                &&& post.max_duration == pre.max_duration
                &&& a == (QuizAction::QuizExpired {
                    elapsed: (now - pre.original_start_time) as i64,
                    cards_remaining: (pre.items@.len() - pre.pos) as usize,
                })
                &&& db1 == db0
            } else {
                // within budget: the pending item is asked
                &&& opens_item(pre, post, a)
                &&& post.start_time == pre.start_time
                &&& post.max_duration == pre.max_duration
                &&& db1 == db0
            }
        },
        QuizState::AwaitExtension => match event {
            QuizEvent::Extension(opt) => match opt {
                // refusing more time ends the session; nothing recorded
                None => {
                    &&& post.state is Done
                    &&& post.pos == pre.pos
                    &&& a is Finished
                    &&& db1 == db0
                },
                // granted minutes reset the segment clock and resume
                // with the pending item
                Some(m) => {
                    &&& post.start_time == now
                    &&& post.max_duration == m * 60
                    &&& opens_item(pre, post, a)
                    &&& db1 == db0
                },
            },
            _ => true,
        },
        QuizState::Collecting { remaining, correct, wrong, counter } => match event {
            QuizEvent::Response(opt) => {
                let total = pre.items@[pre.pos as int].expected@.len();
                match opt {
                    // an empty response ends collection at once
                    None => closes_collection(
                        pre,
                        post,
                        db0,
                        db1,
                        now,
                        a,
                        remaining@,
                        correct@,
                        wrong@,
                    ),
                    Some(u) => {
                        let rem2 = unmatched(remaining@, u@);
                        let matched = rem2.len() != remaining@.len();
                        let correct2 = if matched {
                            correct@.push(u)
                        } else {
                            correct@
                        };
                        let wrong2 = if matched {
                            wrong@
                        } else {
                            wrong@.push(u)
                        };
                        if counter >= total {
                            // the expected count is reached: collection ends
                            closes_collection(pre, post, db0, db1, now, a, rem2, correct2, wrong2)
                        } else {
                            // otherwise the next response is read, numbered
                            // in sequence
                            &&& post.pos == pre.pos
                            &&& post.start_time == pre.start_time
                            &&& post.max_duration == pre.max_duration
                            &&& post.state matches QuizState::Collecting {
                                remaining: r2,
                                correct: c2,
                                wrong: w2,
                                counter: k2,
                            } && r2@ == rem2 && c2@ == correct2 && w2@ == wrong2 && k2 == counter
                                + 1
                            &&& a == (QuizAction::ReadResponse {
                                item: pre.pos,
                                counter: (counter + 1) as usize,
                            })
                            &&& db1 == db0
                        }
                    },
                }
            },
            _ => true,
        },
        QuizState::AwaitResult => match event {
            QuizEvent::ResultChosen(res) => match res {
                // the user's own grade is exactly what gets recorded
                QuestionResult::Yes => records_outcome(
                    pre,
                    post,
                    db0,
                    db1,
                    now,
                    a,
                    QuestionResult::Yes,
                ),
                QuestionResult::Almost | QuestionResult::No => {
                    // a miss opens the corrective loop on the first line;
                    // the grade is held, not yet recorded
                    &&& post.pos == pre.pos
                    &&& post.start_time == pre.start_time
                    &&& post.max_duration == pre.max_duration
                    &&& post.state == (QuizState::Repeat { result: res, idx: 0 })
                    &&& a matches QuizAction::RepeatBack { item, expected } && item == pre.pos
                        && expected == pre.items@[pre.pos as int].expected@[0]
                    &&& db1 == db0
                },
            },
            _ => true,
        },
        QuizState::Repeat { result, idx } => match event {
            QuizEvent::Response(opt) => match opt {
                // giving up ends the loop; the chosen grade stands
                None => records_outcome(pre, post, db0, db1, now, a, result),
                Some(u) => {
                    let exp = pre.items@[pre.pos as int].expected@;
                    if spec_check_user_response(exp[idx as int]@, u@) {
                        if idx + 1 >= exp.len() {
                            // every line repeated; the grade stands
                            records_outcome(pre, post, db0, db1, now, a, result)
                        } else {
                            // on to the next expected line, in card order
                            &&& post.pos == pre.pos
                            &&& post.start_time == pre.start_time
                            &&& post.max_duration == pre.max_duration
                            &&& post.state == (QuizState::Repeat {
                                result,
                                idx: (idx + 1) as usize,
                            })
                            &&& a matches QuizAction::RepeatBack { item, expected } && item
                                == pre.pos && expected == exp[idx + 1]
                            &&& db1 == db0
                        }
                    } else {
                        // a wrong repetition re-asks the same line
                        &&& post.pos == pre.pos
                        &&& post.start_time == pre.start_time
                        &&& post.max_duration == pre.max_duration
                        &&& post.state == (QuizState::Repeat { result, idx })
                        &&& a matches QuizAction::RepeatBack { item, expected } && item == pre.pos
                            && expected == exp[idx as int]
                        &&& db1 == db0
                    }
                },
            },
            _ => true,
        },
        QuizState::Done => {
            &&& post.state is Done
            &&& a is Finished
            &&& db1 == db0
        },
    }
}

/// The session driver: walks the queue, runs the per-item protocol,
/// and appends each outcome to the history store.
pub struct QuizDriver {
    pub items: Vec<QuizItem>,
    pub pos: usize,
    pub original_start_time: i64,
    pub start_time: i64,
    pub max_duration: i64,
    pub state: QuizState,
}

impl QuizDriver {
    pub open spec fn wf(self) -> bool {
        &&& self.pos <= self.items@.len()
        &&& 0 <= self.original_start_time <= MAX_RECORD_DATE
        &&& 0 <= self.start_time <= MAX_RECORD_DATE
        &&& 0 <= self.max_duration <= MAX_RECORD_DATE
        &&& match self.state {
            QuizState::TimeCheck => true,
            QuizState::AwaitExtension => self.pos < self.items@.len(),
            QuizState::Collecting { remaining, correct, wrong, counter } => self.pos
                < self.items@.len() && counter >= 1 && remaining@.len()
                <= self.items@[self.pos as int].expected@.len(),
            QuizState::AwaitResult => self.pos < self.items@.len()
                && self.items@[self.pos as int].expected@.len() > 0,
            QuizState::Repeat { result, idx } => self.pos < self.items@.len() && idx
                < self.items@[self.pos as int].expected@.len() && !(result is Yes),
            QuizState::Done => true,
        }
    }

    /// Which event the pending state can take.
    pub open spec fn event_fits(self, event: QuizEvent) -> bool {
        match self.state {
            QuizState::TimeCheck => event is Started,
            QuizState::AwaitExtension => match event {
                QuizEvent::Extension(opt) => match opt {
                    None => true,
                    Some(m) => 0 <= m && m * 60 <= MAX_RECORD_DATE,
                },
                _ => false,
            },
            QuizState::Collecting { .. } => event is Response,
            QuizState::AwaitResult => event is ResultChosen,
            QuizState::Repeat { .. } => event is Response,
            QuizState::Done => event is Started,
        }
    }

    /// Whether this event ends the collection of responses.
    pub open spec fn collection_ends(self, event: QuizEvent) -> bool {
        match self.state {
            QuizState::Collecting { remaining, correct, wrong, counter } => match event {
                QuizEvent::Response(opt) => match opt {
                    None => true,
                    Some(u) => counter >= self.items@[self.pos as int].expected@.len(),
                },
                _ => false,
            },
            _ => false,
        }
    }

    /// What remains expected once this event is taken in.
    pub open spec fn remaining_after(self, event: QuizEvent) -> Seq<String> {
        match self.state {
            QuizState::Collecting { remaining, correct, wrong, counter } => match event {
                QuizEvent::Response(opt) => match opt {
                    None => remaining@,
                    Some(u) => unmatched(remaining@, u@),
                },
                _ => remaining@,
            },
            _ => Seq::empty(),
        }
    }

    pub fn new(items: Vec<QuizItem>, now: i64, duration_min: i64) -> (r: QuizDriver)
        requires
            0 <= now <= MAX_RECORD_DATE,
            0 <= duration_min,
            duration_min * 60 <= MAX_RECORD_DATE,
        ensures
            r.wf(),
            r.items@ == items@,
            r.pos == 0,
            r.state is TimeCheck,
    {
        QuizDriver {
            items,
            pos: 0,
            original_start_time: now,
            start_time: now,
            max_duration: duration_min * 60,
            state: QuizState::TimeCheck,
        }
    }

    /// Appends the outcome for the current item and moves on.
    fn record(&mut self, db: &mut Database, result: QuestionResult, now: i64) -> (a: QuizAction)
        requires
            old(self).wf(),
            old(self).pos < old(self).items@.len(),
            0 <= now <= MAX_RECORD_DATE,
        ensures
            final(self).wf(),
            final(self).items@ == old(self).items@,
            final(self).pos == old(self).pos + 1,
            final(self).state is TimeCheck,
            final(self).original_start_time == old(self).original_start_time,
            final(self).start_time == old(self).start_time,
            final(self).max_duration == old(self).max_duration,
            recorded(
                *old(db),
                *final(db),
                old(self).items@[old(self).pos as int].uuid,
                old(self).items@[old(self).pos as int].kind,
                result,
                now,
            ),
            a == (QuizAction::Cleanup { item: old(self).pos }),
    {
        let uuid = self.items[self.pos].uuid;
        let kind = self.items[self.pos].kind;
        db.push_question_record(uuid, kind, QuestionRecord { date: now, result });
        let item = self.pos;
        proof {
            assert(item < self.items.len());
        }
        self.pos = item + 1;
        self.state = QuizState::TimeCheck;
        QuizAction::Cleanup { item }
    }

    /// Starts the current item: hand out the prompt and expect the
    /// first response.
    fn begin_item(&mut self) -> (a: QuizAction)
        requires
            old(self).wf(),
            old(self).pos < old(self).items@.len(),
        ensures
            final(self).wf(),
            final(self).items@ == old(self).items@,
            final(self).pos == old(self).pos,
            final(self).original_start_time == old(self).original_start_time,
            final(self).start_time == old(self).start_time,
            final(self).max_duration == old(self).max_duration,
            final(self).state matches QuizState::Collecting { remaining, correct, wrong, counter }
                && remaining@ == old(self).items@[old(self).pos as int].expected@ && correct@.len()
                == 0 && wrong@.len() == 0 && counter == 1,
            a == (QuizAction::Prompt { item: old(self).pos }),
    {
        let remaining = copy_strings(&self.items[self.pos].expected);
        self.state = QuizState::Collecting {
            remaining,
            correct: Vec::new(),
            wrong: Vec::new(),
            counter: 1,
        };
        QuizAction::Prompt { item: self.pos }
    }

    /// One step of the session protocol: takes what the presentation
    /// reported for the pending action and says what to do next.
    ///
    /// `step_relation` pins the whole decision table: time check and
    /// extension, response bookkeeping and buckets, which grade is
    /// recorded, and the repeat-back walk.  On top of it stand the
    /// named laws: the store only ever gains exactly one record, for
    /// the item in hand; and an item whose whole expected-response set
    /// was matched by the collected answers is recorded `Yes` without
    /// the grading callback ever being requested.
    pub fn step(&mut self, db: &mut Database, event: QuizEvent, now: i64) -> (a: QuizAction)
        requires
            old(self).wf(),
            old(self).event_fits(event),
            0 <= now <= MAX_RECORD_DATE,
        ensures
            step_relation(*old(self), *final(self), *old(db), *final(db), event, now, a),
            final(self).wf(),
            final(self).items@ == old(self).items@,
            final(self).original_start_time == old(self).original_start_time,
            old(self).pos <= final(self).pos,
            *final(db) == *old(db) || (old(self).pos < old(self).items@.len() && exists|
                res: QuestionResult,
            |
                recorded(
                    *old(db),
                    *final(db),
                    old(self).items@[old(self).pos as int].uuid,
                    old(self).items@[old(self).pos as int].kind,
                    res,
                    now,
                )),
            // a fully matched expected set auto-grades as Yes and skips grading
            old(self).collection_ends(event) && old(self).remaining_after(event).len() == 0
                ==> !(a is ReadResult) && recorded(
                *old(db),
                *final(db),
                old(self).items@[old(self).pos as int].uuid,
                old(self).items@[old(self).pos as int].kind,
                QuestionResult::Yes,
                now,
            ),
            // grading is requested only when something expected was missed
            a is ReadResult ==> old(self).collection_ends(event) && old(self).remaining_after(
                event,
            ).len() > 0,
            // every action that names an item names one inside the queue
            match a {
                QuizAction::Prompt { item } => item < final(self).items@.len(),
                QuizAction::ReadResponse { item, counter } => item < final(self).items@.len(),
                QuizAction::ReadResult { item, missing, correct, incorrect } => item
                    < final(self).items@.len(),
                QuizAction::RepeatBack { item, expected } => item < final(self).items@.len(),
                QuizAction::Cleanup { item } => item < final(self).items@.len(),
                QuizAction::QuizExpired { elapsed, cards_remaining } => true,
                QuizAction::Finished => true,
            },
    {
        let mut state = QuizState::Done;
        core::mem::swap(&mut state, &mut self.state);
        match state {
            QuizState::TimeCheck => {
                if self.pos >= self.items.len() {
                    self.state = QuizState::Done;
                    QuizAction::Finished
                } else if now - self.start_time > self.max_duration {
                    self.state = QuizState::AwaitExtension;
                    QuizAction::QuizExpired {
                        elapsed: now - self.original_start_time,
                        cards_remaining: self.items.len() - self.pos,
                    }
                } else {
                    self.state = QuizState::TimeCheck;
                    self.begin_item()
                }
            },
            QuizState::AwaitExtension => {
                match event {
                    QuizEvent::Extension(opt) => match opt {
                        None => {
                            self.state = QuizState::Done;
                            QuizAction::Finished
                        },
                        Some(minutes) => {
                            self.start_time = now;
                            self.max_duration = minutes * 60;
                            self.state = QuizState::TimeCheck;
                            self.begin_item()
                        },
                    },
                    _ => {
                        self.state = QuizState::Done;
                        QuizAction::Finished
                    },
                }
            },
            QuizState::Collecting { remaining, mut correct, mut wrong, counter } => {
                match event {
                    QuizEvent::Response(opt) => match opt {
                        None => {
                            // collection over; grade what stands
                            if remaining.len() == 0 {
                                self.record(db, QuestionResult::Yes, now)
                            } else {
                                let missing = copy_strings(&remaining);
                                self.state = QuizState::AwaitResult;
                                QuizAction::ReadResult {
                                    item: self.pos,
                                    missing,
                                    correct,
                                    incorrect: wrong,
                                }
                            }
                        },
                        Some(user_response) => {
                            let len_before = remaining.len();
                            let remaining2 = retain_unmatched(&remaining, user_response.as_str());
                            proof {
                                lemma_unmatched_len(remaining@, user_response@);
                            }
                            // a response that matched an expected line is
                            // a correct one; one that matched nothing is not
                            if remaining2.len() != len_before {
                                correct.push(user_response);
                            } else {
                                wrong.push(user_response);
                            }
                            let total = self.items[self.pos].expected.len();
                            if counter >= total {
                                // collection over; grade what stands
                                if remaining2.len() == 0 {
                                    self.record(db, QuestionResult::Yes, now)
                                } else {
                                    let missing = copy_strings(&remaining2);
                                    self.state = QuizState::AwaitResult;
                                    QuizAction::ReadResult {
                                        item: self.pos,
                                        missing,
                                        correct,
                                        incorrect: wrong,
                                    }
                                }
                            } else {
                                let item = self.pos;
                                self.state = QuizState::Collecting {
                                    remaining: remaining2,
                                    correct,
                                    wrong,
                                    counter: counter + 1,
                                };
                                QuizAction::ReadResponse { item, counter: counter + 1 }
                            }
                        },
                    },
                    _ => {
                        self.state = QuizState::Done;
                        QuizAction::Finished
                    },
                }
            },
            QuizState::AwaitResult => {
                match event {
                    QuizEvent::ResultChosen(res) => match res {
                        QuestionResult::Yes => self.record(db, QuestionResult::Yes, now),
                        QuestionResult::Almost | QuestionResult::No => {
                            // have the user repeat every expected line
                            self.state = QuizState::Repeat { result: res, idx: 0 };
                            let expected = self.items[self.pos].expected[0].clone();
                            QuizAction::RepeatBack { item: self.pos, expected }
                        },
                    },
                    _ => {
                        self.state = QuizState::Done;
                        QuizAction::Finished
                    },
                }
            },
            QuizState::Repeat { result, idx } => {
                match event {
                    QuizEvent::Response(opt) => match opt {
                        None => {
                            // the user gave up; the grade stands
                            self.record(db, result, now)
                        },
                        Some(user_response) => {
                            let expected = &self.items[self.pos].expected;
                            let elen = expected.len();
                            if check_user_response(expected[idx].as_str(), user_response.as_str())
                            {
                                if idx + 1 >= elen {
                                    self.record(db, result, now)
                                } else {
                                    let next = expected[idx + 1].clone();
                                    self.state = QuizState::Repeat { result, idx: idx + 1 };
                                    QuizAction::RepeatBack { item: self.pos, expected: next }
                                }
                            } else {
                                let again = expected[idx].clone();
                                self.state = QuizState::Repeat { result, idx };
                                QuizAction::RepeatBack { item: self.pos, expected: again }
                            }
                        },
                    },
                    _ => {
                        self.state = QuizState::Done;
                        QuizAction::Finished
                    },
                }
            },
            QuizState::Done => {
                self.state = QuizState::Done;
                QuizAction::Finished
            },
        }
    }
}

/// A match in the split of a suffix that starts one past a comma (or at
/// the very start) is a match in the split of the whole text.
proof fn lemma_split_commas_suffix(s: Seq<char>, start: int, u: Seq<char>)
    requires
        0 <= start <= s.len(),
        start == 0 || s[start - 1] == ',',
        start >= 1 ==> exists|k: int|
            0 <= k < spec_split_commas(s.skip(start)).len() && spec_trim(
                #[trigger] spec_split_commas(s.skip(start))[k],
            ) == u,
        start == 0 ==> exists|k: int|
            0 <= k < spec_split_commas(s).len() && spec_trim(#[trigger] spec_split_commas(s)[k])
                == u,
    ensures
        exists|k: int|
            0 <= k < spec_split_commas(s).len() && spec_trim(#[trigger] spec_split_commas(s)[k])
                == u,
    decreases start,
{
    if start >= 1 {
        // find the comma that opens this suffix and peel the head piece
        let f = first_idx(s, ',');
        lemma_first_idx(s, ',');
        assert(f <= start - 1);
        let tail = s.skip(f + 1);
        if f + 1 == start {
            let k = choose|k: int|
                0 <= k < spec_split_commas(s.skip(start)).len() && spec_trim(
                    #[trigger] spec_split_commas(s.skip(start))[k],
                ) == u;
            assert(spec_split_commas(s)[k + 1] == spec_split_commas(tail)[k]);
        } else {
            assert(tail.skip(start - (f + 1)) =~= s.skip(start));
            assert(tail[start - (f + 1) - 1] == s[start - 1]);
            lemma_split_commas_suffix(tail, start - (f + 1), u);
            let k = choose|k: int|
                0 <= k < spec_split_commas(tail).len() && spec_trim(
                    #[trigger] spec_split_commas(tail)[k],
                ) == u;
            assert(spec_split_commas(s)[k + 1] == spec_split_commas(tail)[k]);
        }
    }
}

} // verus!
