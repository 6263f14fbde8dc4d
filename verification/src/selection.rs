//! The expiration model and the session builder: which card-question
//! pairs are due, and in what order a study session asks them.
//!
//! The trailing run of a history is the maximal suffix sharing the most
//! recent outcome.  Walking backward over adjacent record pairs, every
//! pair whose later record still lies in that run yields one gap; the
//! pair that bridges from the run's first record back to its predecessor
//! also qualifies, since its later record is in the run.  A history with
//! fewer than two records yields no gap at all.

use vstd::prelude::*;
use crate::db::{CardRecord, Database, QuestionKind, QuestionRecord, QuestionResult, MAX_RECORD_DATE};
use crate::uuid::Uuid;
use crate::language::Language;
use crate::rng::{MathemaRng, spec_next_state, spec_output};

verus! {

/// Largest element of a non-empty sequence.
pub open spec fn seq_max(s: Seq<int>) -> int
    recommends
        s.len() > 0,
    decreases s.len(),
{
    if s.len() <= 1 {
        if s.len() == 1 {
            s[0]
        } else {
            0
        }
    } else {
        let m = seq_max(s.drop_last());
        if s.last() >= m {
            s.last()
        } else {
            m
        }
    }
}

/// Smallest element of a non-empty sequence.
pub open spec fn seq_min(s: Seq<int>) -> int
    recommends
        s.len() > 0,
    decreases s.len(),
{
    if s.len() <= 1 {
        if s.len() == 1 {
            s[0]
        } else {
            0
        }
    } else {
        let m = seq_min(s.drop_last());
        if s.last() <= m {
            s.last()
        } else {
            m
        }
    }
}

/// Lengthened interval after a run of correct answers: three halves,
/// rounded toward zero on non-negative durations.
pub open spec fn spec_increase(d: int) -> int {
    (d * 3) / 2
}

/// Shortened interval after a run of misses: one half.
pub open spec fn spec_decrease(d: int) -> int {
    d / 2
}

/// Smallest index from which every later record shares `res`.
pub open spec fn run_start(qs: Seq<QuestionRecord>, res: QuestionResult) -> int
    decreases qs.len(),
{
    if qs.len() == 0 || qs.last().result != res {
        qs.len() as int
    } else {
        run_start(qs.drop_last(), res)
    }
}

pub proof fn lemma_run_start_props(qs: Seq<QuestionRecord>, res: QuestionResult)
    ensures
        0 <= run_start(qs, res) <= qs.len(),
        forall|j: int| run_start(qs, res) <= j < qs.len() ==> (#[trigger] qs[j]).result == res,
        run_start(qs, res) > 0 ==> qs[run_start(qs, res) - 1].result != res,
    decreases qs.len(),
{
    if qs.len() > 0 && qs.last().result == res {
        lemma_run_start_props(qs.drop_last(), res);
        let t = qs.drop_last();
        assert forall|j: int| run_start(qs, res) <= j < qs.len() implies (#[trigger] qs[j]).result
            == res by {
            if j < qs.len() - 1 {
                assert(qs[j] == t[j]);
            }
        }
        if run_start(qs, res) > 0 {
            assert(qs[run_start(qs, res) - 1] == t[run_start(t, res) - 1]);
        }
    }
}

/// If every record from `t` on shares `res`, the run starts at `t` or
/// earlier.
pub proof fn lemma_run_start_le(qs: Seq<QuestionRecord>, res: QuestionResult, t: int)
    requires
        0 <= t <= qs.len(),
        forall|j: int| t <= j < qs.len() ==> (#[trigger] qs[j]).result == res,
    ensures
        run_start(qs, res) <= t,
    decreases qs.len(),
{
    if qs.len() > 0 && t < qs.len() {
        assert(qs.last().result == res);
        let d = qs.drop_last();
        assert forall|j: int| t <= j < d.len() implies (#[trigger] d[j]).result == res by {
            assert(d[j] == qs[j]);
        }
        lemma_run_start_le(d, res, t);
    } else {
        lemma_run_start_props(qs, res);
    }
}

/// The gaps feeding the expiration model, most recent pair first: one
/// entry per adjacent record pair whose later record lies in the
/// trailing run of `qs`.
pub open spec fn spec_gaps(qs: Seq<QuestionRecord>) -> Seq<int>
    recommends
        qs.len() > 0,
{
    let res = qs.last().result;
    let lo = if run_start(qs, res) >= 1 {
        run_start(qs, res)
    } else {
        1
    };
    Seq::new(
        if qs.len() >= lo {
            (qs.len() - lo) as nat
        } else {
            0
        },
        |p: int| qs[qs.len() - 1 - p].date - qs[qs.len() - 2 - p].date,
    )
}

/// The next review interval for `(kind)` from a card's history, or
/// `None` when the history yields no gap: never asked, or asked once.
///
/// The trailing outcome picks the reducer: after `Yes` the largest gap
/// grows by half, after `Almost` the smallest gap holds, after `No` the
/// smallest gap is halved.
pub open spec fn spec_expiration_duration(rec: CardRecord, kind: QuestionKind) -> Option<int> {
    let qs = rec.spec_questions(kind);
    if qs.len() == 0 {
        None
    } else {
        let gaps = spec_gaps(qs);
        if gaps.len() == 0 {
            None
        } else {
            match qs.last().result {
                QuestionResult::Yes => Some(spec_increase(seq_max(gaps))),
                QuestionResult::Almost => Some(seq_min(gaps)),
                QuestionResult::No => Some(spec_decrease(seq_min(gaps))),
            }
        }
    }
}

/// A history yields gaps exactly when it has at least two records.
pub proof fn lemma_gaps_len(qs: Seq<QuestionRecord>)
    requires
        qs.len() > 0,
    ensures
        spec_gaps(qs).len() == if run_start(qs, qs.last().result) >= 1 {
            qs.len() - run_start(qs, qs.last().result)
        } else {
            qs.len() - 1
        },
        spec_gaps(qs).len() > 0 <==> qs.len() >= 2,
{
    let res = qs.last().result;
    lemma_run_start_props(qs, res);
    assert(run_start(qs, res) <= qs.len() - 1);
}

/// Every record's well-formed dates keep each gap within safe bounds,
/// and ascending dates keep each gap non-negative.
pub proof fn lemma_gaps_bounds(qs: Seq<QuestionRecord>)
    requires
        qs.len() > 0,
        CardRecord::seq_dates_well_formed(qs),
    ensures
        forall|p: int|
            0 <= p < spec_gaps(qs).len() ==> 0 <= #[trigger] spec_gaps(qs)[p] <= MAX_RECORD_DATE,
{
    lemma_run_start_props(qs, qs.last().result);
}

/// Bounds of the largest and smallest element of a sequence.
pub proof fn lemma_seq_max_min_bounds(s: Seq<int>, lo: int, hi: int)
    requires
        s.len() > 0,
        forall|p: int| 0 <= p < s.len() ==> lo <= #[trigger] s[p] <= hi,
    ensures
        lo <= seq_max(s) <= hi,
        lo <= seq_min(s) <= hi,
        seq_min(s) <= seq_max(s),
    decreases s.len(),
{
    if s.len() > 1 {
        let d = s.drop_last();
        assert forall|p: int| 0 <= p < d.len() implies lo <= #[trigger] d[p] <= hi by {
            assert(d[p] == s[p]);
        }
        lemma_seq_max_min_bounds(d, lo, hi);
    }
}

/// The history's record dates are well formed whenever the card record
/// as a whole is.
pub proof fn lemma_wf_questions(rec: CardRecord, kind: QuestionKind)
    requires
        rec.dates_well_formed(),
    ensures
        CardRecord::seq_dates_well_formed(rec.spec_questions(kind)),
{
    lemma_lookup_wf(rec.entries@, kind);
}

proof fn lemma_lookup_wf(entries: Seq<(QuestionKind, Vec<QuestionRecord>)>, kind: QuestionKind)
    requires
        forall|i: int|
            0 <= i < entries.len() ==> CardRecord::seq_dates_well_formed(
                (#[trigger] entries[i]).1@,
            ),
    ensures
        CardRecord::seq_dates_well_formed(CardRecord::lookup(entries, kind)),
    decreases entries.len(),
{
    if entries.len() == 0 {
    } else if entries[0].0 == kind {
    } else {
        assert forall|i: int|
            0 <= i < entries.drop_first().len() implies CardRecord::seq_dates_well_formed(
            (#[trigger] entries.drop_first()[i]).1@,
        ) by {
            assert(entries.drop_first()[i] == entries[i + 1]);
        }
        lemma_lookup_wf(entries.drop_first(), kind);
    }
}

/// Next review interval for `(kind, record)`, or `None` when the
/// history yields no gap (never asked, or asked exactly once).
pub fn expiration_duration(question_kind: QuestionKind, record: &CardRecord) -> (r: Option<i64>)
    requires
        record.wf(),
    ensures
        match r {
            None => spec_expiration_duration(*record, question_kind) is None,
            Some(d) => spec_expiration_duration(*record, question_kind) == Some(d as int),
        },
{
    proof {
        lemma_wf_questions(*record, question_kind);
    }
    let qs = record.questions(question_kind);
    let n = qs.len();
    if n == 0 {
        return None;
    }
    proof {
        lemma_gaps_len(qs@);
    }
    if n == 1 {
        return None;
    }
    let ghost gaps = spec_gaps(qs@);
    proof {
        lemma_gaps_bounds(qs@);
        lemma_run_start_props(qs@, qs@.last().result);
    }
    let last = qs[n - 1];
    let res = last.result;
    let mut maxg: i64 = qs[n - 1].date - qs[n - 2].date;
    let mut ming: i64 = maxg;
    let mut p: usize = 1;
    proof {
        assert(gaps[0] == qs@[n - 1].date - qs@[n - 2].date);
        assert(gaps.take(1) =~= seq![gaps[0]]);
    }
    while p < n - 1 && qs[n - 1 - p].result == res
        invariant
            2 <= n == qs@.len(),
            qs@.last().result == res,
            CardRecord::seq_dates_well_formed(qs@),
            gaps == spec_gaps(qs@),
            forall|p0: int| 0 <= p0 < gaps.len() ==> 0 <= #[trigger] gaps[p0] <= MAX_RECORD_DATE,
            1 <= p <= gaps.len(),
            forall|j: int| n - p <= j < n ==> (#[trigger] qs@[j]).result == res,
            maxg == seq_max(gaps.take(p as int)),
            ming == seq_min(gaps.take(p as int)),
        decreases n - p,
    {
        proof {
            // the tested record extends the run, so another gap exists
            lemma_run_start_le(qs@, res, n - 1 - p as int);
            lemma_gaps_len(qs@);
            assert(p < gaps.len());
            assert(gaps[p as int] == qs@[n - 1 - p as int].date - qs@[n - 2 - p as int].date);
        }
        let g = qs[n - 1 - p].date - qs[n - 2 - p].date;
        proof {
            assert(gaps.take(p + 1).drop_last() =~= gaps.take(p as int));
            assert(gaps.take(p + 1).last() == gaps[p as int]);
        }
        if g > maxg {
            maxg = g;
        }
        if g < ming {
            ming = g;
        }
        p += 1;
    }
    proof {
        // at exit the run is exhausted: exactly `p` gaps exist
        if p < n - 1 {
            lemma_run_start_le(qs@, res, n - p as int);
            lemma_run_start_props(qs@, res);
            assert(run_start(qs@, res) == n - p as int);
        } else {
            lemma_run_start_le(qs@, res, 1);
        }
        lemma_gaps_len(qs@);
        assert(p == gaps.len());
        assert(gaps.take(p as int) =~= gaps);
        lemma_seq_max_min_bounds(gaps, 0, MAX_RECORD_DATE as int);
    }
    match res {
        QuestionResult::Yes => Some(increase(maxg)),
        QuestionResult::Almost => Some(ming),
        QuestionResult::No => Some(decrease(ming)),
    }
}

/// An interval, when one exists, lies between zero and three halves of
/// the largest representable gap.
pub proof fn lemma_expiration_bounds(rec: CardRecord, kind: QuestionKind)
    requires
        rec.wf(),
    ensures
        match spec_expiration_duration(rec, kind) {
            None => true,
            Some(d) => {
                &&& 0 <= d <= 2 * MAX_RECORD_DATE
                &&& rec.spec_questions(kind).len() >= 2
            },
        },
{
    let qs = rec.spec_questions(kind);
    lemma_wf_questions(rec, kind);
    if qs.len() > 0 {
        lemma_gaps_len(qs);
        let gaps = spec_gaps(qs);
        if gaps.len() > 0 {
            lemma_gaps_bounds(qs);
            lemma_seq_max_min_bounds(gaps, 0, MAX_RECORD_DATE as int);
        }
    }
}

/// One card-question pair with its computed interval and due date, if
/// its history yields any.
#[derive(Clone, Copy, Debug)]
pub struct CardAndExpirationDate {
    pub uuid: Uuid,
    pub kind: QuestionKind,
    /// Interval and due date, or `None` for a never-asked pair.
    pub expiration: Option<(i64, i64)>,
}

/// The interval and due date of `(uuid, kind)`, when the card has a
/// record whose history yields a gap.
pub open spec fn spec_expiration_date(db: Database, uuid: Uuid, kind: QuestionKind) -> Option<
    (i64, i64),
> {
    match db.spec_record(uuid) {
        None => None,
        Some(rec) => match spec_expiration_duration(rec, kind) {
            None => None,
            Some(d) => Some(
                (d as i64, (rec.spec_questions(kind).last().date + d) as i64),
            ),
        },
    }
}

/// Due dates stay within safe bounds.
pub proof fn lemma_expiration_date_bounds(db: Database, uuid: Uuid, kind: QuestionKind)
    requires
        db.wf(),
    ensures
        match spec_expiration_date(db, uuid, kind) {
            None => true,
            Some((d, due)) => 0 <= d <= 2 * MAX_RECORD_DATE && 0 <= due <= 3 * MAX_RECORD_DATE,
        },
{
    match db.spec_record(uuid) {
        None => {},
        Some(rec) => {
            lemma_record_of_wf_db(db, uuid);
            lemma_expiration_bounds(rec, kind);
            if spec_expiration_duration(rec, kind) is Some {
                lemma_wf_questions(rec, kind);
            }
        },
    }
}

/// Every record of a well-formed store is itself well formed.
pub proof fn lemma_record_of_wf_db(db: Database, uuid: Uuid)
    requires
        db.wf(),
    ensures
        match db.spec_record(uuid) {
            None => true,
            Some(rec) => rec.wf(),
        },
{
    lemma_lookup_record_wf(db.user.records@, uuid);
}

proof fn lemma_lookup_record_wf(records: Seq<(Uuid, CardRecord)>, uuid: Uuid)
    requires
        forall|i: int| 0 <= i < records.len() ==> (#[trigger] records[i]).1.wf(),
    ensures
        match crate::db::User::lookup(records, uuid) {
            None => true,
            Some(rec) => rec.wf(),
        },
    decreases records.len(),
{
    if records.len() > 0 && records[0].0 != uuid {
        assert forall|i: int|
            0 <= i < records.drop_first().len() implies (#[trigger] records.drop_first()[i]).1.wf()
        by {
            assert(records.drop_first()[i] == records[i + 1]);
        }
        lemma_lookup_record_wf(records.drop_first(), uuid);
    }
}

/// Interval and due date for every pair of the cross-product of cards
/// and suitable question kinds, in card-major order.
pub fn expiration_dates(
    db: &Database,
    card_ids: &Vec<Uuid>,
    suitable_questions: &Vec<QuestionKind>,
) -> (r: Vec<CardAndExpirationDate>)
    requires
        db.wf(),
        card_ids@.len() * suitable_questions@.len() <= usize::MAX,
    ensures
        r@.len() == card_ids@.len() * suitable_questions@.len(),
        forall|i: int, j: int|
            0 <= i < card_ids@.len() && 0 <= j < suitable_questions@.len()
                ==> #[trigger] r@[i * suitable_questions@.len() + j] == (CardAndExpirationDate {
                uuid: card_ids@[i],
                kind: suitable_questions@[j],
                expiration: spec_expiration_date(*db, card_ids@[i], suitable_questions@[j]),
            }),
{
    let m = suitable_questions.len();
    let mut r: Vec<CardAndExpirationDate> = Vec::new();
    let mut i: usize = 0;
    while i < card_ids.len()
        invariant
            0 <= i <= card_ids@.len(),
            m == suitable_questions@.len(),
            db.wf(),
            card_ids@.len() * m <= usize::MAX,
            r@.len() == i * m,
            forall|a: int, b: int|
                0 <= a < i && 0 <= b < m ==> #[trigger] r@[a * m + b] == (CardAndExpirationDate {
                    uuid: card_ids@[a],
                    kind: suitable_questions@[b],
                    expiration: spec_expiration_date(*db, card_ids@[a], suitable_questions@[b]),
                }),
        decreases card_ids@.len() - i,
    {
        let uuid = card_ids[i];
        proof {
            assert(i * m + m == (i + 1) * m && (i + 1) * m <= card_ids@.len() * m && 0 <= i
                * m) by (nonlinear_arith)
                requires
                    0 <= i < card_ids@.len(),
                    0 <= m,
            ;
        }
        let mut j: usize = 0;
        while j < m
            invariant
                0 <= j <= m,
                0 <= i < card_ids@.len(),
                m == suitable_questions@.len(),
                db.wf(),
                uuid == card_ids@[i as int],
                i * m + m <= usize::MAX,
                r@.len() == i * m + j,
                forall|a: int, b: int|
                    0 <= a < i && 0 <= b < m ==> #[trigger] r@[a * m + b] == (
                    CardAndExpirationDate {
                        uuid: card_ids@[a],
                        kind: suitable_questions@[b],
                        expiration: spec_expiration_date(*db, card_ids@[a], suitable_questions@[b]),
                    }),
                forall|b: int|
                    0 <= b < j ==> #[trigger] r@[i * m + b] == (CardAndExpirationDate {
                        uuid: card_ids@[i as int],
                        kind: suitable_questions@[b],
                        expiration: spec_expiration_date(
                            *db,
                            card_ids@[i as int],
                            suitable_questions@[b],
                        ),
                    }),
            decreases m - j,
        {
            let kind = suitable_questions[j];
            let expiration = match db.card_record(uuid) {
                None => None,
                Some(rec) => {
                    proof {
                        lemma_record_of_wf_db(*db, uuid);
                        lemma_expiration_bounds(db.spec_record(uuid).unwrap(), kind);
                        lemma_wf_questions(db.spec_record(uuid).unwrap(), kind);
                    }
                    match expiration_duration(kind, rec) {
                        None => None,
                        Some(d) => {
                            let last = rec.last_asked(kind).unwrap();
                            Some((d, last + d))
                        },
                    }
                },
            };
            r.push(CardAndExpirationDate { uuid, kind, expiration });
            proof {
                assert forall|a: int, b: int| 0 <= a < i && 0 <= b < m implies 0 <= #[trigger] (a
                    * m + b) && a * m + b < i * m by {
                    assert(a * m + b < i * m && a * m + b >= 0) by (nonlinear_arith)
                        requires
                            0 <= a < i,
                            0 <= b < m,
                    ;
                }
            }
            j += 1;
        }
        proof {
            assert((i + 1) * m == i * m + m) by (nonlinear_arith);
        }
        i += 1;
    }
    proof {
        assert forall|a: int, b: int|
            0 <= a < card_ids@.len() && 0 <= b < suitable_questions@.len() implies #[trigger] r@[a
            * suitable_questions@.len() + b] == (CardAndExpirationDate {
            uuid: card_ids@[a],
            kind: suitable_questions@[b],
            expiration: spec_expiration_date(*db, card_ids@[a], suitable_questions@[b]),
        }) by {}
    }
    r
}

/// One expired pair awaiting ordering: how long overdue, a random
/// tiebreaker drawn at collection time, and the pair itself.
#[derive(Clone, Copy, Debug)]
pub struct ExpiredEntry {
    pub overdue: i64,
    pub tie: u64,
    pub uuid: Uuid,
    pub kind: QuestionKind,
}

pub open spec fn lang_rank(l: Language) -> int {
    match l {
        Language::English => 0,
        Language::Greek => 1,
    }
}

pub open spec fn kind_rank(k: QuestionKind) -> int {
    match k {
        QuestionKind::Translate { from, to } => 2 * lang_rank(from) + lang_rank(to),
    }
}

/// Total order on expired entries: most overdue first, ties broken by
/// the drawn tiebreaker, then by card id and question kind.
pub open spec fn entry_ge(a: ExpiredEntry, b: ExpiredEntry) -> bool {
    if a.overdue != b.overdue {
        a.overdue > b.overdue
    } else if a.tie != b.tie {
        a.tie > b.tie
    } else if a.uuid.bits != b.uuid.bits {
        a.uuid.bits > b.uuid.bits
    } else {
        kind_rank(a.kind) >= kind_rank(b.kind)
    }
}

fn lang_rank_exec(l: Language) -> (r: i64)
    ensures
        r == lang_rank(l),
{
    match l {
        Language::English => 0,
        Language::Greek => 1,
    }
}

fn kind_rank_exec(k: QuestionKind) -> (r: i64)
    ensures
        r == kind_rank(k),
{
    match k {
        QuestionKind::Translate { from, to } => 2 * lang_rank_exec(from) + lang_rank_exec(to),
    }
}

fn entry_ge_exec(a: &ExpiredEntry, b: &ExpiredEntry) -> (r: bool)
    ensures
        r == entry_ge(*a, *b),
{
    if a.overdue != b.overdue {
        a.overdue > b.overdue
    } else if a.tie != b.tie {
        a.tie > b.tie
    } else if a.uuid.bits != b.uuid.bits {
        a.uuid.bits > b.uuid.bits
    } else {
        kind_rank_exec(a.kind) >= kind_rank_exec(b.kind)
    }
}

/// The cross-product of cards and suitable question kinds with each
/// pair's due date, in card-major order.
pub open spec fn spec_dates(db: Database, ids: Seq<Uuid>, sq: Seq<QuestionKind>) -> Seq<
    CardAndExpirationDate,
> {
    Seq::new(
        (ids.len() * sq.len()) as nat,
        |k: int|
            CardAndExpirationDate {
                uuid: ids[k / sq.len() as int],
                kind: sq[k % sq.len() as int],
                expiration: spec_expiration_date(db, ids[k / sq.len() as int], sq[k % sq.len() as int]),
            },
    )
}

/// Splits the dated pairs into expired ones (due before `now`, with
/// their overdue amount and a tiebreaker drawn in list order) and
/// never-asked ones, threading the random state.
pub open spec fn spec_collect(cards: Seq<CardAndExpirationDate>, now: i64, st: u64) -> (
    Seq<ExpiredEntry>,
    Seq<(Uuid, QuestionKind)>,
    u64,
)
    decreases cards.len(),
{
    if cards.len() == 0 {
        (Seq::empty(), Seq::empty(), st)
    } else {
        let (exp, never, st1) = spec_collect(cards.drop_last(), now, st);
        let cd = cards.last();
        match cd.expiration {
            None => (exp, never.push((cd.uuid, cd.kind)), st1),
            Some((d, due)) => if due < now {
                let st2 = spec_next_state(st1);
                (
                    exp.push(
                        ExpiredEntry {
                            overdue: (now - due) as i64,
                            tie: spec_output(st2),
                            uuid: cd.uuid,
                            kind: cd.kind,
                        },
                    ),
                    never,
                    st2,
                )
            } else {
                (exp, never, st1)
            },
        }
    }
}

/// Inserts an entry into a descending-ordered sequence.
pub open spec fn spec_insert_desc(x: ExpiredEntry, s: Seq<ExpiredEntry>) -> Seq<ExpiredEntry>
    decreases s.len(),
{
    if s.len() == 0 {
        seq![x]
    } else if entry_ge(x, s[0]) {
        seq![x] + s
    } else {
        seq![s[0]] + spec_insert_desc(x, s.drop_first())
    }
}

/// Sorts entries most-overdue first by repeated insertion.
pub open spec fn spec_sort_desc(s: Seq<ExpiredEntry>) -> Seq<ExpiredEntry>
    decreases s.len(),
{
    if s.len() == 0 {
        Seq::empty()
    } else {
        spec_insert_desc(s.last(), spec_sort_desc(s.drop_last()))
    }
}

/// A single pass of pairwise swaps, walking from the top index down,
/// each position exchanged with a drawn position at or below it.
pub open spec fn spec_shuffle_from(s: Seq<(Uuid, QuestionKind)>, i: int, st: u64) -> (
    Seq<(Uuid, QuestionKind)>,
    u64,
)
    decreases (if i > 0 {
        i
    } else {
        0
    }),
{
    if i < 1 || i >= s.len() {
        (s, st)
    } else {
        let st1 = spec_next_state(st);
        let j = (spec_output(st1) % ((i + 1) as u64)) as int;
        let s2 = s.update(i, s[j]).update(j, s[i]);
        spec_shuffle_from(s2, i - 1, st1)
    }
}

/// A uniform single-pass shuffle of the never-asked pairs.
pub open spec fn spec_shuffle(s: Seq<(Uuid, QuestionKind)>, st: u64) -> (
    Seq<(Uuid, QuestionKind)>,
    u64,
) {
    spec_shuffle_from(s, s.len() - 1, st)
}

/// Interleaves the two ordered lists by a fair coin per step, the
/// expired list on heads; a drained side lets the other run out.
pub open spec fn spec_merge(
    a: Seq<(Uuid, QuestionKind)>,
    b: Seq<(Uuid, QuestionKind)>,
    st: u64,
) -> (Seq<(Uuid, QuestionKind)>, u64)
    decreases a.len() + b.len(),
{
    if a.len() == 0 || b.len() == 0 {
        (a + b, st)
    } else {
        let st1 = spec_next_state(st);
        if spec_output(st1) & 1 == 1 {
            let (rest, st2) = spec_merge(a.drop_first(), b, st1);
            (seq![a[0]] + rest, st2)
        } else {
            let (rest, st2) = spec_merge(a, b.drop_first(), st1);
            (seq![b[0]] + rest, st2)
        }
    }
}

/// Whether some pair in `s` carries the card id `u`.
pub open spec fn seen_uuid(s: Seq<(Uuid, QuestionKind)>, u: Uuid) -> bool {
    exists|i: int| 0 <= i < s.len() && (#[trigger] s[i]).0 == u
}

/// Keeps only the first pair of each card id, in order.
pub open spec fn spec_dedup(s: Seq<(Uuid, QuestionKind)>) -> Seq<(Uuid, QuestionKind)>
    decreases s.len(),
{
    if s.len() == 0 {
        Seq::empty()
    } else {
        let d = spec_dedup(s.drop_last());
        if seen_uuid(s.drop_last(), s.last().0) {
            d
        } else {
            d.push(s.last())
        }
    }
}

/// The whole session order built from dated pairs: expired ones sorted
/// most-overdue first, never-asked ones shuffled, the two interleaved
/// by coin flips, and at most one entry kept per card.
pub open spec fn spec_build_session(cards: Seq<CardAndExpirationDate>, now: i64, st: u64) -> (
    Seq<(Uuid, QuestionKind)>,
    u64,
) {
    let (exp, never, st1) = spec_collect(cards, now, st);
    let sorted_pairs = spec_sort_desc(exp).map_values(|e: ExpiredEntry| (e.uuid, e.kind));
    let (shuffled, st2) = spec_shuffle(never, st1);
    let (merged, st3) = spec_merge(sorted_pairs, shuffled, st2);
    (spec_dedup(merged), st3)
}

/// The session order for a history store, a card list and the suitable
/// question kinds, from a given random state: a pure function of them.
pub open spec fn spec_expired_cards(
    db: Database,
    ids: Seq<Uuid>,
    sq: Seq<QuestionKind>,
    now: i64,
    st: u64,
) -> (Seq<(Uuid, QuestionKind)>, u64) {
    spec_build_session(spec_dates(db, ids, sq), now, st)
}

/// An entry goes in front of the first element it ranks at or above.
proof fn lemma_insert_desc_at(s: Seq<ExpiredEntry>, x: ExpiredEntry, idx: int)
    requires
        0 <= idx <= s.len(),
        forall|k: int| 0 <= k < idx ==> !entry_ge(x, #[trigger] s[k]),
        idx < s.len() ==> entry_ge(x, s[idx]),
    ensures
        spec_insert_desc(x, s) == s.insert(idx, x),
    decreases idx,
{
    if s.len() == 0 {
        assert(spec_insert_desc(x, s) =~= s.insert(0, x));
    } else if idx == 0 {
        assert(s.insert(0, x) =~= seq![x] + s);
    } else {
        let d = s.drop_first();
        assert forall|k: int| 0 <= k < idx - 1 implies !entry_ge(x, #[trigger] d[k]) by {
            assert(d[k] == s[k + 1]);
        }
        if idx - 1 < d.len() {
            assert(d[idx - 1] == s[idx]);
        }
        lemma_insert_desc_at(d, x, idx - 1);
        assert(seq![s[0]] + d.insert(idx - 1, x) =~= s.insert(idx, x));
    }
}

/// Inserts an entry into a most-overdue-first vector, keeping order.
fn insert_sorted(v: &mut Vec<ExpiredEntry>, x: ExpiredEntry)
    ensures
        final(v)@ == spec_insert_desc(x, old(v)@),
{
    let mut idx: usize = 0;
    while idx < v.len() && !entry_ge_exec(&x, &v[idx])
        invariant
            0 <= idx <= v@.len(),
            v@ == old(v)@,
            forall|k: int| 0 <= k < idx ==> !entry_ge(x, #[trigger] v@[k]),
        decreases v@.len() - idx,
    {
        idx += 1;
    }
    proof {
        lemma_insert_desc_at(v@, x, idx as int);
    }
    v.insert(idx, x);
}

/// Shuffles the pairs in place with the session's random source.
fn shuffle_pairs(rng: &mut MathemaRng, v: &mut Vec<(Uuid, QuestionKind)>)
    ensures
        (final(v)@, final(rng).state) == spec_shuffle(old(v)@, old(rng).state),
{
    let n = v.len();
    if n < 2 {
        return ;
    }
    let mut i: usize = n - 1;
    while i >= 1
        invariant
            v@.len() == n,
            2 <= n,
            0 <= i <= n - 1,
            spec_shuffle_from(old(v)@, n - 1, old(rng).state) == spec_shuffle_from(
                v@,
                i as int,
                rng.state,
            ),
        decreases i,
    {
        let ghost vs = v@;
        let ghost st = rng.state;
        let w = rng.next_below((i as u64) + 1);
        let j = w as usize;
        proof {
            assert(w < (i as u64) + 1);
            assert(j <= i);
            assert(j as int == spec_output(spec_next_state(st)) % (((i as int) + 1) as u64));
        }
        let a = v[i];
        let b = v[j];
        v.set(i, b);
        v.set(j, a);
        proof {
            assert(v@ =~= vs.update(i as int, vs[j as int]).update(j as int, vs[i as int]));
        }
        i -= 1;
    }
}

/// Interleaves the two lists by coin flips, expired side on heads.
fn merge_pairs(
    rng: &mut MathemaRng,
    a: &Vec<(Uuid, QuestionKind)>,
    b: &Vec<(Uuid, QuestionKind)>,
) -> (r: Vec<(Uuid, QuestionKind)>)
    ensures
        (r@, final(rng).state) == spec_merge(a@, b@, old(rng).state),
{
    let mut r: Vec<(Uuid, QuestionKind)> = Vec::new();
    let mut ia: usize = 0;
    let mut ib: usize = 0;
    proof {
        assert(a@.skip(0) =~= a@);
        assert(b@.skip(0) =~= b@);
        assert(r@ + spec_merge(a@, b@, rng.state).0 =~= spec_merge(a@, b@, rng.state).0);
    }
    while ia < a.len() && ib < b.len()
        invariant
            0 <= ia <= a@.len(),
            0 <= ib <= b@.len(),
            spec_merge(a@, b@, old(rng).state).0 == r@ + spec_merge(
                a@.skip(ia as int),
                b@.skip(ib as int),
                rng.state,
            ).0,
            spec_merge(a@, b@, old(rng).state).1 == spec_merge(
                a@.skip(ia as int),
                b@.skip(ib as int),
                rng.state,
            ).1,
        decreases a@.len() - ia + b@.len() - ib,
    {
        let ghost sa = a@.skip(ia as int);
        let ghost sb = b@.skip(ib as int);
        let ghost st = rng.state;
        let ghost r0 = r@;
        let flip = rng.next_bool();
        if flip {
            r.push(a[ia]);
            proof {
                assert(sa.drop_first() =~= a@.skip(ia + 1));
                assert(sa[0] == a@[ia as int]);
                assert(r@ + spec_merge(a@.skip(ia + 1), sb, rng.state).0 =~= r0 + (seq![sa[0]]
                    + spec_merge(sa.drop_first(), sb, spec_next_state(st)).0));
            }
            ia += 1;
        } else {
            r.push(b[ib]);
            proof {
                assert(sb.drop_first() =~= b@.skip(ib + 1));
                assert(sb[0] == b@[ib as int]);
                assert(r@ + spec_merge(sa, b@.skip(ib + 1), rng.state).0 =~= r0 + (seq![sb[0]]
                    + spec_merge(sa, sb.drop_first(), spec_next_state(st)).0));
            }
            ib += 1;
        }
    }
    let ghost stend = rng.state;
    proof {
        assert(spec_merge(a@.skip(ia as int), b@.skip(ib as int), stend) == (
            a@.skip(ia as int) + b@.skip(ib as int),
            stend,
        ));
    }
    while ia < a.len()
        invariant
            0 <= ia <= a@.len(),
            0 <= ib <= b@.len(),
            rng.state == stend,
            spec_merge(a@, b@, old(rng).state).0 == r@ + a@.skip(ia as int) + b@.skip(ib as int),
            spec_merge(a@, b@, old(rng).state).1 == stend,
        decreases a@.len() - ia,
    {
        let ghost r0 = r@;
        r.push(a[ia]);
        proof {
            assert(r0 + a@.skip(ia as int) + b@.skip(ib as int) =~= r@ + a@.skip(ia + 1) + b@.skip(
                ib as int,
            ));
        }
        ia += 1;
    }
    while ib < b.len()
        invariant
            ia == a@.len(),
            0 <= ib <= b@.len(),
            rng.state == stend,
            spec_merge(a@, b@, old(rng).state).0 == r@ + a@.skip(ia as int) + b@.skip(ib as int),
            spec_merge(a@, b@, old(rng).state).1 == stend,
        decreases b@.len() - ib,
    {
        let ghost r0 = r@;
        r.push(b[ib]);
        proof {
            assert(r0 + a@.skip(ia as int) + b@.skip(ib as int) =~= r@ + a@.skip(ia as int)
                + b@.skip(ib + 1));
        }
        ib += 1;
    }
    proof {
        assert(a@.skip(a@.len() as int) =~= Seq::<(Uuid, QuestionKind)>::empty());
        assert(b@.skip(b@.len() as int) =~= Seq::<(Uuid, QuestionKind)>::empty());
        assert(r@ + a@.skip(ia as int) + b@.skip(ib as int) =~= r@);
    }
    r
}

/// Whether some pair in the vector carries the card id `u`.
fn contains_uuid(v: &Vec<(Uuid, QuestionKind)>, u: Uuid) -> (r: bool)
    ensures
        r == seen_uuid(v@, u),
{
    let mut i: usize = 0;
    while i < v.len()
        invariant
            0 <= i <= v@.len(),
            forall|k: int| 0 <= k < i ==> (#[trigger] v@[k]).0 != u,
        decreases v@.len() - i,
    {
        if v[i].0 == u {
            return true;
        }
        i += 1;
    }
    false
}

/// Appending one pair extends the seen card ids by exactly its id.
proof fn lemma_seen_push(s: Seq<(Uuid, QuestionKind)>, x: (Uuid, QuestionKind), u: Uuid)
    ensures
        seen_uuid(s.push(x), u) == (seen_uuid(s, u) || x.0 == u),
{
    if seen_uuid(s, u) {
        let i = choose|i: int| 0 <= i < s.len() && (#[trigger] s[i]).0 == u;
        assert(s.push(x)[i].0 == u);
    }
    if x.0 == u {
        assert(s.push(x)[s.len() as int].0 == u);
    }
    if seen_uuid(s.push(x), u) {
        let i = choose|i: int| 0 <= i < s.push(x).len() && (#[trigger] s.push(x)[i]).0 == u;
        if i < s.len() {
            assert(s[i].0 == u);
        }
    }
}

/// Dropping later duplicates keeps exactly the same card ids.
proof fn lemma_dedup_seen(s: Seq<(Uuid, QuestionKind)>, u: Uuid)
    ensures
        seen_uuid(spec_dedup(s), u) == seen_uuid(s, u),
    decreases s.len(),
{
    if s.len() > 0 {
        let t = s.drop_last();
        lemma_dedup_seen(t, u);
        assert(t.push(s.last()) =~= s);
        lemma_seen_push(t, s.last(), u);
        if !seen_uuid(t, s.last().0) {
            lemma_seen_push(spec_dedup(t), s.last(), u);
        }
    }
}

/// After deduplication no card id appears twice.
proof fn lemma_dedup_nodup(s: Seq<(Uuid, QuestionKind)>)
    ensures
        forall|i: int, j: int|
            0 <= i < j < spec_dedup(s).len() ==> (#[trigger] spec_dedup(s)[i]).0 != (
            #[trigger] spec_dedup(s)[j]).0,
    decreases s.len(),
{
    if s.len() > 0 {
        let t = s.drop_last();
        lemma_dedup_nodup(t);
        let d = spec_dedup(t);
        if !seen_uuid(t, s.last().0) {
            lemma_dedup_seen(t, s.last().0);
            assert(!seen_uuid(d, s.last().0));
            assert forall|i: int, j: int|
                0 <= i < j < spec_dedup(s).len() implies (#[trigger] spec_dedup(s)[i]).0 != (
                #[trigger] spec_dedup(s)[j]).0 by {
                if j < d.len() {
                    assert(spec_dedup(s)[i] == d[i]);
                    assert(spec_dedup(s)[j] == d[j]);
                } else {
                    assert(spec_dedup(s)[i] == d[i]);
                    assert(spec_dedup(s)[j] == s.last());
                    assert(d[i].0 != s.last().0);
                }
            }
        }
    }
}

/// Builds the ordered study session: every due pair most-overdue first
/// with random tie-breaks, never-asked pairs shuffled in, the two
/// interleaved by coin flips, and one entry at most per card.
///
/// The order is a pure function of the store, the card list, the
/// question kinds, the time and the random state, so a session built
/// from a seeded source is reproducible.
pub fn expired_cards(
    rng: &mut MathemaRng,
    db: &Database,
    card_ids: &Vec<Uuid>,
    suitable_questions: &Vec<QuestionKind>,
    now: i64,
) -> (r: Vec<(Uuid, QuestionKind)>)
    requires
        db.wf(),
        0 <= now <= MAX_RECORD_DATE,
        card_ids@.len() * suitable_questions@.len() <= usize::MAX,
    ensures
        r@ == spec_expired_cards(*db, card_ids@, suitable_questions@, now, old(rng).state).0,
        final(rng).state == spec_expired_cards(
            *db,
            card_ids@,
            suitable_questions@,
            now,
            old(rng).state,
        ).1,
        forall|i: int, j: int|
            0 <= i < j < r@.len() ==> (#[trigger] r@[i]).0 != (#[trigger] r@[j]).0,
{
    let ghost st0 = rng.state;
    let ghost sd = spec_dates(*db, card_ids@, suitable_questions@);
    let cards = expiration_dates(db, card_ids, suitable_questions);
    proof {
        let m = suitable_questions@.len() as int;
        let n = card_ids@.len() as int;
        assert forall|k: int| 0 <= k < cards@.len() implies cards@[k] == sd[k] by {
            vstd::arithmetic::div_mod::lemma_fundamental_div_mod(k, m);
            assert(0 <= k % m < m) by (nonlinear_arith)
                requires
                    m > 0,
                    k >= 0,
            ;
            assert(0 <= k / m < n) by (nonlinear_arith)
                requires
                    m > 0,
                    0 <= k,
                    k < n * m,
                    k == m * (k / m) + k % m,
                    0 <= k % m < m,
            ;
            assert((k / m) * m + (k % m) == k) by (nonlinear_arith)
                requires
                    k == m * (k / m) + k % m,
            ;
            assert(cards@[(k / m) * m + (k % m)] == (CardAndExpirationDate {
                uuid: card_ids@[k / m],
                kind: suitable_questions@[k % m],
                expiration: spec_expiration_date(*db, card_ids@[k / m], suitable_questions@[k % m]),
            }));
        }
        assert(cards@ =~= sd);
        assert forall|k: int| 0 <= k < cards@.len() implies match (#[trigger] cards@[k]).expiration {
            None => true,
            Some((d, due)) => 0 <= d && 0 <= due <= 3 * MAX_RECORD_DATE,
        } by {
            lemma_expiration_date_bounds(*db, cards@[k].uuid, cards@[k].kind);
        }
    }
    let mut expired: Vec<ExpiredEntry> = Vec::new();
    let mut never: Vec<(Uuid, QuestionKind)> = Vec::new();
    let mut t: usize = 0;
    while t < cards.len()
        invariant
            0 <= t <= cards@.len(),
            cards@ == sd,
            st0 == old(rng).state,
            forall|k: int|
                0 <= k < cards@.len() ==> match (#[trigger] cards@[k]).expiration {
                    None => true,
                    Some((d, due)) => 0 <= d && 0 <= due <= 3 * MAX_RECORD_DATE,
                },
            0 <= now <= MAX_RECORD_DATE,
            expired@ == spec_collect(cards@.take(t as int), now, st0).0,
            never@ == spec_collect(cards@.take(t as int), now, st0).1,
            rng.state == spec_collect(cards@.take(t as int), now, st0).2,
        decreases cards@.len() - t,
    {
        let cd = cards[t];
        proof {
            assert(cards@.take(t + 1).drop_last() =~= cards@.take(t as int));
            assert(cards@.take(t + 1).last() == cards@[t as int]);
        }
        match cd.expiration {
            None => {
                never.push((cd.uuid, cd.kind));
            },
            Some(pair) => {
                let due = pair.1;
                if due < now {
                    let tie = rng.next_u64();
                    expired.push(
                        ExpiredEntry { overdue: now - due, tie, uuid: cd.uuid, kind: cd.kind },
                    );
                }
            },
        }
        t += 1;
    }
    proof {
        assert(cards@.take(cards@.len() as int) =~= cards@);
    }
    let ghost collected = spec_collect(sd, now, st0);
    // order the expired pairs, most overdue first
    let mut sorted: Vec<ExpiredEntry> = Vec::new();
    let mut e: usize = 0;
    while e < expired.len()
        invariant
            0 <= e <= expired@.len(),
            sorted@ == spec_sort_desc(expired@.take(e as int)),
        decreases expired@.len() - e,
    {
        proof {
            assert(expired@.take(e + 1).drop_last() =~= expired@.take(e as int));
            assert(expired@.take(e + 1).last() == expired@[e as int]);
        }
        insert_sorted(&mut sorted, expired[e]);
        e += 1;
    }
    proof {
        assert(expired@.take(expired@.len() as int) =~= expired@);
    }
    let mut sorted_pairs: Vec<(Uuid, QuestionKind)> = Vec::new();
    let mut p: usize = 0;
    while p < sorted.len()
        invariant
            0 <= p <= sorted@.len(),
            sorted_pairs@.len() == p,
            forall|q: int|
                0 <= q < p ==> #[trigger] sorted_pairs@[q] == (sorted@[q].uuid, sorted@[q].kind),
        decreases sorted@.len() - p,
    {
        sorted_pairs.push((sorted[p].uuid, sorted[p].kind));
        p += 1;
    }
    proof {
        assert(sorted_pairs@ =~= spec_sort_desc(collected.0).map_values(
            |x: ExpiredEntry| (x.uuid, x.kind),
        ));
    }
    // order the never-asked pairs at random
    shuffle_pairs(rng, &mut never);
    // interleave the two lists
    let merged = merge_pairs(rng, &sorted_pairs, &never);
    // keep one question per card: the first that was picked
    let mut out: Vec<(Uuid, QuestionKind)> = Vec::new();
    let mut t2: usize = 0;
    while t2 < merged.len()
        invariant
            0 <= t2 <= merged@.len(),
            out@ == spec_dedup(merged@.take(t2 as int)),
        decreases merged@.len() - t2,
    {
        let pair = merged[t2];
        let dup = contains_uuid(&out, pair.0);
        proof {
            lemma_dedup_seen(merged@.take(t2 as int), pair.0);
            assert(merged@.take(t2 + 1).drop_last() =~= merged@.take(t2 as int));
            assert(merged@.take(t2 + 1).last() == merged@[t2 as int]);
        }
        if !dup {
            out.push(pair);
        }
        t2 += 1;
    }
    proof {
        assert(merged@.take(merged@.len() as int) =~= merged@);
        lemma_dedup_nodup(merged@);
    }
    out
}

/// A history yields an interval exactly when it holds at least two
/// records.  In particular a trailing run of length two or more always
/// yields one, and a history of at most one record never does: a card
/// asked exactly once is not due through the interval path and can only
/// surface as never-asked, which it no longer is.
pub proof fn lemma_expiration_some_iff(rec: CardRecord, kind: QuestionKind)
    ensures
        spec_expiration_duration(rec, kind) is Some <==> rec.spec_questions(kind).len() >= 2,
{
    let qs = rec.spec_questions(kind);
    if qs.len() > 0 {
        lemma_gaps_len(qs);
    }
}

/// A trailing run of two or more records forces an interval.  (A run of
/// length one can still yield one through the pair that bridges into the
/// run, whenever an earlier record exists.)
pub proof fn lemma_trailing_run_some(rec: CardRecord, kind: QuestionKind)
    requires
        rec.spec_questions(kind).len() > 0,
        rec.spec_questions(kind).len() - run_start(
            rec.spec_questions(kind),
            rec.spec_questions(kind).last().result,
        ) >= 2,
    ensures
        spec_expiration_duration(rec, kind) is Some,
{
    let qs = rec.spec_questions(kind);
    lemma_run_start_props(qs, qs.last().result);
    lemma_expiration_some_iff(rec, kind);
}

/// Which reducer the trailing outcome picks: after `Yes` the largest
/// gap scaled by three halves (toward zero), after `Almost` exactly the
/// smallest gap, after `No` half the smallest gap.
pub proof fn lemma_expiration_reducers(rec: CardRecord, kind: QuestionKind)
    requires
        rec.spec_questions(kind).len() >= 2,
    ensures
        ({
            let qs = rec.spec_questions(kind);
            let gaps = spec_gaps(qs);
            spec_expiration_duration(rec, kind) == match qs.last().result {
                QuestionResult::Yes => Some(spec_increase(seq_max(gaps))),
                QuestionResult::Almost => Some(seq_min(gaps)),
                QuestionResult::No => Some(spec_decrease(seq_min(gaps))),
            }
        }),
{
    lemma_gaps_len(rec.spec_questions(kind));
}

/// Re-running the session builder on an unchanged history store with
/// the same cards, question kinds, time and random state reproduces the
/// same session order: the order is a pure function of those five.
pub proof fn lemma_session_reproducible(
    db1: Database,
    db2: Database,
    ids1: Seq<Uuid>,
    ids2: Seq<Uuid>,
    sq1: Seq<QuestionKind>,
    sq2: Seq<QuestionKind>,
    now1: i64,
    now2: i64,
    st1: u64,
    st2: u64,
)
    requires
        db1 == db2,
        ids1 == ids2,
        sq1 == sq2,
        now1 == now2,
        st1 == st2,
    ensures
        spec_expired_cards(db1, ids1, sq1, now1, st1) == spec_expired_cards(
            db2,
            ids2,
            sq2,
            now2,
            st2,
        ),
{
}

/// Whether the store holds `(uuid, kind)` as due before `now`.
pub open spec fn is_expired_pair(db: Database, p: (Uuid, QuestionKind), now: i64) -> bool {
    match spec_expiration_date(db, p.0, p.1) {
        None => false,
        Some((d, due)) => due < now,
    }
}

/// By how much an expired pair is overdue.
pub open spec fn spec_overdue(db: Database, p: (Uuid, QuestionKind), now: i64) -> int
    recommends
        is_expired_pair(db, p, now),
{
    match spec_expiration_date(db, p.0, p.1) {
        None => 0,
        Some((d, due)) => now - due,
    }
}

/// What collection establishes: every expired entry records a pair that
/// is due, with its exact overdue amount; and every never-asked pair is
/// one whose history yields no interval at all.  A pair with a future
/// due date joins neither list.
pub proof fn lemma_collect_props(
    db: Database,
    cards: Seq<CardAndExpirationDate>,
    now: i64,
    st: u64,
)
    requires
        db.wf(),
        0 <= now <= MAX_RECORD_DATE,
        forall|k: int|
            0 <= k < cards.len() ==> (#[trigger] cards[k]).expiration == spec_expiration_date(
                db,
                cards[k].uuid,
                cards[k].kind,
            ),
    ensures
        forall|i: int|
            0 <= i < spec_collect(cards, now, st).0.len() ==> {
                let e = #[trigger] spec_collect(cards, now, st).0[i];
                &&& is_expired_pair(db, (e.uuid, e.kind), now)
                &&& e.overdue == spec_overdue(db, (e.uuid, e.kind), now)
            },
        forall|i: int|
            0 <= i < spec_collect(cards, now, st).1.len() ==> spec_expiration_date(
                db,
                (#[trigger] spec_collect(cards, now, st).1[i]).0,
                spec_collect(cards, now, st).1[i].1,
            ) is None,
    decreases cards.len(),
{
    if cards.len() > 0 {
        let t = cards.drop_last();
        assert forall|k: int|
            0 <= k < t.len() implies (#[trigger] t[k]).expiration == spec_expiration_date(
            db,
            t[k].uuid,
            t[k].kind,
        ) by {
            assert(t[k] == cards[k]);
        }
        lemma_collect_props(db, t, now, st);
        let cd = cards.last();
        lemma_expiration_date_bounds(db, cd.uuid, cd.kind);
    }
}

/// Collection never yields more entries than it was handed.
proof fn lemma_collect_len(cards: Seq<CardAndExpirationDate>, now: i64, st: u64)
    ensures
        spec_collect(cards, now, st).0.len() <= cards.len(),
        spec_collect(cards, now, st).1.len() <= cards.len(),
    decreases cards.len(),
{
    if cards.len() > 0 {
        lemma_collect_len(cards.drop_last(), now, st);
    }
}

/// Pairwise descending order by the entry comparison.
pub open spec fn sorted_desc(s: Seq<ExpiredEntry>) -> bool {
    forall|i: int, j: int| 0 <= i < j < s.len() ==> entry_ge(#[trigger] s[i], #[trigger] s[j])
}

proof fn lemma_insert_desc_props(x: ExpiredEntry, s: Seq<ExpiredEntry>)
    requires
        sorted_desc(s),
    ensures
        sorted_desc(spec_insert_desc(x, s)),
        spec_insert_desc(x, s).len() == s.len() + 1,
        forall|y: ExpiredEntry|
            #[trigger] spec_insert_desc(x, s).contains(y) ==> s.contains(y) || y == x,
    decreases s.len(),
{
    let r = spec_insert_desc(x, s);
    if s.len() == 0 {
    } else if entry_ge(x, s[0]) {
        assert forall|i: int, j: int| 0 <= i < j < r.len() implies entry_ge(
            #[trigger] r[i],
            #[trigger] r[j],
        ) by {
            if i == 0 {
                assert(r[j] == s[j - 1]);
                if j > 1 {
                    assert(entry_ge(s[0], s[j - 1]));
                }
            } else {
                assert(r[i] == s[i - 1]);
                assert(r[j] == s[j - 1]);
            }
        }
        assert forall|y: ExpiredEntry| #[trigger] r.contains(y) implies s.contains(y) || y == x by {
            let i = choose|i: int| 0 <= i < r.len() && r[i] == y;
            if i > 0 {
                assert(s[i - 1] == y);
            }
        }
    } else {
        let d = s.drop_first();
        assert forall|i: int, j: int| 0 <= i < j < d.len() implies entry_ge(
            #[trigger] d[i],
            #[trigger] d[j],
        ) by {
            assert(d[i] == s[i + 1]);
            assert(d[j] == s[j + 1]);
        }
        lemma_insert_desc_props(x, d);
        let rd = spec_insert_desc(x, d);
        assert(r =~= seq![s[0]] + rd);
        assert forall|i: int, j: int| 0 <= i < j < r.len() implies entry_ge(
            #[trigger] r[i],
            #[trigger] r[j],
        ) by {
            if i == 0 {
                assert(r[j] == rd[j - 1]);
                assert(rd.contains(rd[j - 1]));
                if rd[j - 1] == x {
                    // the head refused to yield to `x`, so it ranks above it
                    assert(entry_ge(s[0], x));
                } else {
                    assert(d.contains(rd[j - 1]));
                    let q = choose|q: int| 0 <= q < d.len() && d[q] == rd[j - 1];
                    assert(d[q] == s[q + 1]);
                    assert(entry_ge(s[0], s[q + 1]));
                }
            } else {
                assert(r[i] == rd[i - 1]);
                assert(r[j] == rd[j - 1]);
            }
        }
        assert forall|y: ExpiredEntry| #[trigger] r.contains(y) implies s.contains(y) || y == x by {
            let i = choose|i: int| 0 <= i < r.len() && r[i] == y;
            if i == 0 {
                assert(s.contains(s[0]));
            } else {
                assert(rd.contains(rd[i - 1]));
                if rd[i - 1] != x {
                    let q = choose|q: int| 0 <= q < d.len() && d[q] == rd[i - 1];
                    assert(s[q + 1] == y);
                }
            }
        }
    }
}

/// Sorting yields a descending sequence of the same entries.
pub proof fn lemma_sort_desc_props(s: Seq<ExpiredEntry>)
    ensures
        sorted_desc(spec_sort_desc(s)),
        spec_sort_desc(s).len() == s.len(),
        forall|y: ExpiredEntry| #[trigger] spec_sort_desc(s).contains(y) ==> s.contains(y),
    decreases s.len(),
{
    if s.len() > 0 {
        let t = s.drop_last();
        lemma_sort_desc_props(t);
        lemma_insert_desc_props(s.last(), spec_sort_desc(t));
        assert forall|y: ExpiredEntry| #[trigger] spec_sort_desc(s).contains(y) implies s.contains(
            y,
        ) by {
            if y != s.last() {
                assert(spec_sort_desc(t).contains(y) || y == s.last());
                if spec_sort_desc(t).contains(y) {
                    assert(t.contains(y));
                    let q = choose|q: int| 0 <= q < t.len() && t[q] == y;
                    assert(s[q] == y);
                }
            } else {
                assert(s[s.len() - 1] == y);
            }
        }
    }
}

/// A swap pass hands back the same pairs in some order.
proof fn lemma_shuffle_contains(s: Seq<(Uuid, QuestionKind)>, i: int, st: u64)
    requires
        s.len() <= u64::MAX,
    ensures
        forall|y: (Uuid, QuestionKind)|
            #[trigger] spec_shuffle_from(s, i, st).0.contains(y) ==> s.contains(y),
        spec_shuffle_from(s, i, st).0.len() == s.len(),
    decreases (if i > 0 {
        i
    } else {
        0
    }),
{
    if 1 <= i < s.len() {
        let st1 = spec_next_state(st);
        assert((i + 1) as u64 == i + 1);
        let j = (spec_output(st1) % ((i + 1) as u64)) as int;
        assert(0 <= j <= i);
        let s2 = s.update(i, s[j]).update(j, s[i]);
        lemma_shuffle_contains(s2, i - 1, st1);
        assert forall|y: (Uuid, QuestionKind)| #[trigger] s2.contains(y) implies s.contains(y) by {
            let q = choose|q: int| 0 <= q < s2.len() && s2[q] == y;
            if q == j {
                assert(s[i] == y);
            } else if q == i {
                assert(s[j] == y);
            } else {
                assert(s[q] == y);
            }
        }
    }
}

/// Merging two lists yields only their pairs.
proof fn lemma_merge_contains(a: Seq<(Uuid, QuestionKind)>, b: Seq<(Uuid, QuestionKind)>, st: u64)
    ensures
        forall|y: (Uuid, QuestionKind)|
            #[trigger] spec_merge(a, b, st).0.contains(y) ==> a.contains(y) || b.contains(y),
    decreases a.len() + b.len(),
{
    if a.len() == 0 || b.len() == 0 {
        assert forall|y: (Uuid, QuestionKind)| #[trigger] spec_merge(a, b, st).0.contains(
            y,
        ) implies a.contains(y) || b.contains(y) by {
            let q = choose|q: int| 0 <= q < (a + b).len() && (a + b)[q] == y;
            if q < a.len() {
                assert(a[q] == y);
            } else {
                assert(b[q - a.len()] == y);
            }
        }
    } else {
        let st1 = spec_next_state(st);
        if spec_output(st1) & 1 == 1 {
            lemma_merge_contains(a.drop_first(), b, st1);
            let rest = spec_merge(a.drop_first(), b, st1).0;
            assert forall|y: (Uuid, QuestionKind)| #[trigger] spec_merge(a, b, st).0.contains(
                y,
            ) implies a.contains(y) || b.contains(y) by {
                let m = spec_merge(a, b, st).0;
                let q = choose|q: int| 0 <= q < m.len() && m[q] == y;
                if q == 0 {
                    assert(a[0] == y);
                } else {
                    assert(rest[q - 1] == y);
                    assert(rest.contains(y));
                    if a.drop_first().contains(y) {
                        let w = choose|w: int| 0 <= w < a.drop_first().len() && a.drop_first()[w] == y;
                        assert(a[w + 1] == y);
                    }
                }
            }
        } else {
            lemma_merge_contains(a, b.drop_first(), st1);
            let rest = spec_merge(a, b.drop_first(), st1).0;
            assert forall|y: (Uuid, QuestionKind)| #[trigger] spec_merge(a, b, st).0.contains(
                y,
            ) implies a.contains(y) || b.contains(y) by {
                let m = spec_merge(a, b, st).0;
                let q = choose|q: int| 0 <= q < m.len() && m[q] == y;
                if q == 0 {
                    assert(b[0] == y);
                } else {
                    assert(rest[q - 1] == y);
                    assert(rest.contains(y));
                    if b.drop_first().contains(y) {
                        let w = choose|w: int| 0 <= w < b.drop_first().len() && b.drop_first()[w] == y;
                        assert(b[w + 1] == y);
                    }
                }
            }
        }
    }
}

/// Pairwise overdue order among the expired pairs of a list.
pub open spec fn expired_in_order(db: Database, s: Seq<(Uuid, QuestionKind)>, now: i64) -> bool {
    forall|i: int, j: int|
        0 <= i < j < s.len() && is_expired_pair(db, #[trigger] s[i], now) && is_expired_pair(
            db,
            #[trigger] s[j],
            now,
        ) ==> spec_overdue(db, s[i], now) >= spec_overdue(db, s[j], now)
}

/// Interleaving keeps the expired pairs' order, as long as one side is
/// all expired and in order and the other side holds none.
proof fn lemma_merge_order(
    db: Database,
    a: Seq<(Uuid, QuestionKind)>,
    b: Seq<(Uuid, QuestionKind)>,
    st: u64,
    now: i64,
)
    requires
        forall|i: int| 0 <= i < a.len() ==> is_expired_pair(db, #[trigger] a[i], now),
        forall|i: int| 0 <= i < b.len() ==> !is_expired_pair(db, #[trigger] b[i], now),
        expired_in_order(db, a, now),
    ensures
        expired_in_order(db, spec_merge(a, b, st).0, now),
    decreases a.len() + b.len(),
{
    let m = spec_merge(a, b, st).0;
    if a.len() == 0 || b.len() == 0 {
        assert forall|i: int, j: int|
            0 <= i < j < m.len() && is_expired_pair(db, #[trigger] m[i], now) && is_expired_pair(
                db,
                #[trigger] m[j],
                now,
            ) implies spec_overdue(db, m[i], now) >= spec_overdue(db, m[j], now) by {
            if j < a.len() {
                assert(m[i] == a[i] && m[j] == a[j]);
            } else if i < a.len() {
                assert(m[j] == b[j - a.len()]);
            } else {
                assert(m[i] == b[i - a.len()]);
            }
        }
    } else {
        let st1 = spec_next_state(st);
        if spec_output(st1) & 1 == 1 {
            let d = a.drop_first();
            assert forall|i: int| 0 <= i < d.len() implies is_expired_pair(
                db,
                #[trigger] d[i],
                now,
            ) by {
                assert(d[i] == a[i + 1]);
            }
            assert forall|i: int, j: int|
                0 <= i < j < d.len() && is_expired_pair(db, #[trigger] d[i], now)
                    && is_expired_pair(db, #[trigger] d[j], now) implies spec_overdue(db, d[i], now)
                >= spec_overdue(db, d[j], now) by {
                assert(d[i] == a[i + 1] && d[j] == a[j + 1]);
            }
            lemma_merge_order(db, d, b, st1, now);
            lemma_merge_contains(d, b, st1);
            let rest = spec_merge(d, b, st1).0;
            assert forall|i: int, j: int|
                0 <= i < j < m.len() && is_expired_pair(db, #[trigger] m[i], now)
                    && is_expired_pair(db, #[trigger] m[j], now) implies spec_overdue(db, m[i], now)
                >= spec_overdue(db, m[j], now) by {
                if i == 0 {
                    assert(m[j] == rest[j - 1]);
                    assert(rest.contains(rest[j - 1]));
                    // an expired pair of the merged tail comes from `a`
                    if d.contains(m[j]) {
                        let q = choose|q: int| 0 <= q < d.len() && d[q] == m[j];
                        assert(d[q] == a[q + 1]);
                        assert(spec_overdue(db, a[0], now) >= spec_overdue(db, a[q + 1], now));
                    } else {
                        assert(b.contains(m[j]));
                        let q = choose|q: int| 0 <= q < b.len() && b[q] == m[j];
                        assert(!is_expired_pair(db, b[q], now));
                    }
                } else {
                    assert(m[i] == rest[i - 1]);
                    assert(m[j] == rest[j - 1]);
                }
            }
        } else {
            let d = b.drop_first();
            assert forall|i: int| 0 <= i < d.len() implies !is_expired_pair(
                db,
                #[trigger] d[i],
                now,
            ) by {
                assert(d[i] == b[i + 1]);
            }
            lemma_merge_order(db, a, d, st1, now);
            let rest = spec_merge(a, d, st1).0;
            assert forall|i: int, j: int|
                0 <= i < j < m.len() && is_expired_pair(db, #[trigger] m[i], now)
                    && is_expired_pair(db, #[trigger] m[j], now) implies spec_overdue(db, m[i], now)
                >= spec_overdue(db, m[j], now) by {
                if i == 0 {
                    assert(m[0] == b[0]);
                    assert(!is_expired_pair(db, b[0], now));
                } else {
                    assert(m[i] == rest[i - 1]);
                    assert(m[j] == rest[j - 1]);
                }
            }
        }
    }
}

/// Deduplication yields only pairs of its input.
proof fn lemma_dedup_contains(s: Seq<(Uuid, QuestionKind)>)
    ensures
        forall|y: (Uuid, QuestionKind)| #[trigger] spec_dedup(s).contains(y) ==> s.contains(y),
    decreases s.len(),
{
    if s.len() > 0 {
        let t = s.drop_last();
        lemma_dedup_contains(t);
        assert forall|y: (Uuid, QuestionKind)| #[trigger] spec_dedup(s).contains(y) implies
            s.contains(y) by {
            let d = spec_dedup(t);
            let i = choose|i: int| 0 <= i < spec_dedup(s).len() && spec_dedup(s)[i] == y;
            if seen_uuid(t, s.last().0) || i < d.len() {
                assert(d.contains(y));
                assert(t.contains(y));
                let q = choose|q: int| 0 <= q < t.len() && t[q] == y;
                assert(s[q] == y);
            } else {
                assert(s[s.len() - 1] == y);
            }
        }
    }
}

/// Dropping later duplicates keeps the expired pairs' order.
proof fn lemma_dedup_order(db: Database, s: Seq<(Uuid, QuestionKind)>, now: i64)
    requires
        expired_in_order(db, s, now),
    ensures
        expired_in_order(db, spec_dedup(s), now),
    decreases s.len(),
{
    if s.len() > 0 {
        let t = s.drop_last();
        assert forall|i: int, j: int|
            0 <= i < j < t.len() && is_expired_pair(db, #[trigger] t[i], now) && is_expired_pair(
                db,
                #[trigger] t[j],
                now,
            ) implies spec_overdue(db, t[i], now) >= spec_overdue(db, t[j], now) by {
            assert(t[i] == s[i] && t[j] == s[j]);
        }
        lemma_dedup_order(db, t, now);
        lemma_dedup_contains(t);
        let d = spec_dedup(t);
        let r = spec_dedup(s);
        assert forall|i: int, j: int|
            0 <= i < j < r.len() && is_expired_pair(db, #[trigger] r[i], now) && is_expired_pair(
                db,
                #[trigger] r[j],
                now,
            ) implies spec_overdue(db, r[i], now) >= spec_overdue(db, r[j], now) by {
            if seen_uuid(t, s.last().0) {
                assert(r[i] == d[i] && r[j] == d[j]);
            } else if j < d.len() {
                assert(r[i] == d[i] && r[j] == d[j]);
            } else {
                assert(r[i] == d[i] && r[j] == s.last());
                assert(d.contains(d[i]));
                assert(t.contains(d[i]));
                let q = choose|q: int| 0 <= q < t.len() && t[q] == d[i];
                assert(s[q] == d[i]);
                assert(spec_overdue(db, s[q], now) >= spec_overdue(db, s[s.len() - 1], now));
            }
        }
    }
}

/// In a built session the expired pairs stand most overdue first:
/// whenever two of its entries are both due in the store, the earlier
/// entry is at least as overdue as the later one.
pub proof fn lemma_expired_subsequence_order(
    db: Database,
    ids: Seq<Uuid>,
    sq: Seq<QuestionKind>,
    now: i64,
    st: u64,
)
    requires
        db.wf(),
        0 <= now <= MAX_RECORD_DATE,
        ids.len() * sq.len() <= u64::MAX,
    ensures
        expired_in_order(db, spec_expired_cards(db, ids, sq, now, st).0, now),
{
    let cards = spec_dates(db, ids, sq);
    lemma_collect_props(db, cards, now, st);
    lemma_collect_len(cards, now, st);
    let (exp, never, st1) = spec_collect(cards, now, st);
    lemma_sort_desc_props(exp);
    let sorted = spec_sort_desc(exp);
    let sorted_pairs = sorted.map_values(|x: ExpiredEntry| (x.uuid, x.kind));
    assert forall|i: int| 0 <= i < sorted_pairs.len() implies is_expired_pair(
        db,
        #[trigger] sorted_pairs[i],
        now,
    ) by {
        assert(sorted.contains(sorted[i]));
        assert(exp.contains(sorted[i]));
        let q = choose|q: int| 0 <= q < exp.len() && exp[q] == sorted[i];
        assert(sorted_pairs[i] == (sorted[i].uuid, sorted[i].kind));
    }
    assert forall|i: int, j: int|
        0 <= i < j < sorted_pairs.len() && is_expired_pair(db, #[trigger] sorted_pairs[i], now)
            && is_expired_pair(db, #[trigger] sorted_pairs[j], now) implies spec_overdue(
        db,
        sorted_pairs[i],
        now,
    ) >= spec_overdue(db, sorted_pairs[j], now) by {
        assert(entry_ge(sorted[i], sorted[j]));
        assert(sorted.contains(sorted[i]));
        assert(exp.contains(sorted[i]));
        let qi = choose|q: int| 0 <= q < exp.len() && exp[q] == sorted[i];
        assert(sorted.contains(sorted[j]));
        assert(exp.contains(sorted[j]));
        let qj = choose|q: int| 0 <= q < exp.len() && exp[q] == sorted[j];
        assert(sorted[i].overdue == spec_overdue(db, sorted_pairs[i], now));
        assert(sorted[j].overdue == spec_overdue(db, sorted_pairs[j], now));
    }
    let (shuffled, st2) = spec_shuffle(never, st1);
    lemma_shuffle_contains(never, never.len() - 1, st1);
    assert forall|i: int| 0 <= i < shuffled.len() implies !is_expired_pair(
        db,
        #[trigger] shuffled[i],
        now,
    ) by {
        assert(shuffled.contains(shuffled[i]));
        assert(never.contains(shuffled[i]));
        let q = choose|q: int| 0 <= q < never.len() && never[q] == shuffled[i];
    }
    lemma_merge_order(db, sorted_pairs, shuffled, st2, now);
    let (merged, st3) = spec_merge(sorted_pairs, shuffled, st2);
    lemma_dedup_order(db, merged, now);
}

/// Whether `(uuid, kind)` belongs in a session built at `now`: its due
/// date has passed, or its history yields no interval at all.
pub open spec fn pair_selectable(db: Database, uuid: Uuid, kind: QuestionKind, now: i64) -> bool {
    match spec_expiration_date(db, uuid, kind) {
        None => true,
        Some((d, due)) => due < now,
    }
}

/// Whether some entry of the expired list carries the card id `u`.
pub open spec fn seen_entry_uuid(s: Seq<ExpiredEntry>, u: Uuid) -> bool {
    exists|i: int| 0 <= i < s.len() && (#[trigger] s[i]).uuid == u
}

/// A selectable pair's card id lands in one of the two collected lists.
proof fn lemma_collect_member(cards: Seq<CardAndExpirationDate>, now: i64, st: u64, t: int)
    requires
        0 <= t < cards.len(),
        match cards[t].expiration {
            None => true,
            Some((d, due)) => due < now,
        },
    ensures
        seen_entry_uuid(spec_collect(cards, now, st).0, cards[t].uuid) || seen_uuid(
            spec_collect(cards, now, st).1,
            cards[t].uuid,
        ),
    decreases cards.len(),
{
    let (exp, never, st1) = spec_collect(cards.drop_last(), now, st);
    if t == cards.len() - 1 {
        match cards[t].expiration {
            None => {
                let never2 = spec_collect(cards, now, st).1;
                assert(never2[never2.len() - 1].0 == cards[t].uuid);
            },
            Some((d, due)) => {
                let exp2 = spec_collect(cards, now, st).0;
                assert(exp2[exp2.len() - 1].uuid == cards[t].uuid);
            },
        }
    } else {
        assert(cards.drop_last()[t] == cards[t]);
        lemma_collect_member(cards.drop_last(), now, st, t);
        // the final step only appends, so the witness survives
        if seen_entry_uuid(exp, cards[t].uuid) {
            let i = choose|i: int| 0 <= i < exp.len() && (#[trigger] exp[i]).uuid == cards[t].uuid;
            assert(spec_collect(cards, now, st).0[i].uuid == cards[t].uuid);
        } else {
            let i = choose|i: int|
                0 <= i < never.len() && (#[trigger] never[i]).0 == cards[t].uuid;
            assert(spec_collect(cards, now, st).1[i].0 == cards[t].uuid);
        }
    }
}

/// Insertion keeps every element present.
proof fn lemma_insert_desc_member(x: ExpiredEntry, s: Seq<ExpiredEntry>, u: Uuid)
    requires
        x.uuid == u || seen_entry_uuid(s, u),
    ensures
        seen_entry_uuid(spec_insert_desc(x, s), u),
    decreases s.len(),
{
    let r = spec_insert_desc(x, s);
    if s.len() == 0 {
        assert(r[0].uuid == x.uuid);
    } else if entry_ge(x, s[0]) {
        if x.uuid == u {
            assert(r[0].uuid == u);
        } else {
            let i = choose|i: int| 0 <= i < s.len() && (#[trigger] s[i]).uuid == u;
            assert(r[i + 1].uuid == u);
        }
    } else {
        if x.uuid == u {
            lemma_insert_desc_member(x, s.drop_first(), u);
        } else {
            let i = choose|i: int| 0 <= i < s.len() && (#[trigger] s[i]).uuid == u;
            if i == 0 {
                assert(r[0].uuid == u);
                return ;
            }
            assert(s.drop_first()[i - 1].uuid == u);
            lemma_insert_desc_member(x, s.drop_first(), u);
        }
        let rd = spec_insert_desc(x, s.drop_first());
        let q = choose|q: int| 0 <= q < rd.len() && (#[trigger] rd[q]).uuid == u;
        assert(r[q + 1].uuid == u);
    }
}

/// Sorting keeps every element present.
proof fn lemma_sort_desc_member(s: Seq<ExpiredEntry>, u: Uuid)
    requires
        seen_entry_uuid(s, u),
    ensures
        seen_entry_uuid(spec_sort_desc(s), u),
    decreases s.len(),
{
    let i = choose|i: int| 0 <= i < s.len() && (#[trigger] s[i]).uuid == u;
    if i == s.len() - 1 {
        lemma_insert_desc_member(s.last(), spec_sort_desc(s.drop_last()), u);
    } else {
        assert(s.drop_last()[i].uuid == u);
        lemma_sort_desc_member(s.drop_last(), u);
        lemma_insert_desc_member(s.last(), spec_sort_desc(s.drop_last()), u);
    }
}

/// A swap pass keeps every pair present.
proof fn lemma_shuffle_member(s: Seq<(Uuid, QuestionKind)>, i: int, st: u64, u: Uuid)
    requires
        s.len() <= u64::MAX,
        seen_uuid(s, u),
    ensures
        seen_uuid(spec_shuffle_from(s, i, st).0, u),
    decreases (if i > 0 {
        i
    } else {
        0
    }),
{
    if 1 <= i < s.len() {
        let st1 = spec_next_state(st);
        assert((i + 1) as u64 == i + 1);
        let j = (spec_output(st1) % ((i + 1) as u64)) as int;
        assert(0 <= j <= i);
        let s2 = s.update(i, s[j]).update(j, s[i]);
        let q = choose|q: int| 0 <= q < s.len() && (#[trigger] s[q]).0 == u;
        if q == i {
            assert(s2[j].0 == u);
        } else if q == j {
            assert(s2[i].0 == u);
        } else {
            assert(s2[q].0 == u);
        }
        lemma_shuffle_member(s2, i - 1, st1, u);
    }
}

/// The interleave keeps every pair of both lists present.
proof fn lemma_merge_member(
    a: Seq<(Uuid, QuestionKind)>,
    b: Seq<(Uuid, QuestionKind)>,
    st: u64,
    u: Uuid,
)
    requires
        seen_uuid(a, u) || seen_uuid(b, u),
    ensures
        seen_uuid(spec_merge(a, b, st).0, u),
    decreases a.len() + b.len(),
{
    let m = spec_merge(a, b, st).0;
    if a.len() == 0 || b.len() == 0 {
        if seen_uuid(a, u) {
            let q = choose|q: int| 0 <= q < a.len() && (#[trigger] a[q]).0 == u;
            assert(m[q].0 == u);
        } else {
            let q = choose|q: int| 0 <= q < b.len() && (#[trigger] b[q]).0 == u;
            assert(m[a.len() + q].0 == u);
        }
    } else {
        let st1 = spec_next_state(st);
        if spec_output(st1) & 1 == 1 {
            let rest = spec_merge(a.drop_first(), b, st1).0;
            if a[0].0 == u {
                assert(m[0].0 == u);
            } else {
                if seen_uuid(a, u) {
                    let q = choose|q: int| 0 <= q < a.len() && (#[trigger] a[q]).0 == u;
                    assert(a.drop_first()[q - 1].0 == u);
                }
                lemma_merge_member(a.drop_first(), b, st1, u);
                let q = choose|q: int| 0 <= q < rest.len() && (#[trigger] rest[q]).0 == u;
                assert(m[q + 1].0 == u);
            }
        } else {
            let rest = spec_merge(a, b.drop_first(), st1).0;
            if b[0].0 == u {
                assert(m[0].0 == u);
            } else {
                if seen_uuid(b, u) {
                    let q = choose|q: int| 0 <= q < b.len() && (#[trigger] b[q]).0 == u;
                    assert(b.drop_first()[q - 1].0 == u);
                }
                lemma_merge_member(a, b.drop_first(), st1, u);
                let q = choose|q: int| 0 <= q < rest.len() && (#[trigger] rest[q]).0 == u;
                assert(m[q + 1].0 == u);
            }
        }
    }
}

/// A non-empty session queue exhausts the schedulable cards: every
/// card with a due or never-asked suitable question appears in the
/// built session (and, by construction, exactly once).
pub proof fn lemma_queue_exhausts_cards(
    db: Database,
    ids: Seq<Uuid>,
    sq: Seq<QuestionKind>,
    now: i64,
    st: u64,
)
    requires
        db.wf(),
        0 <= now <= MAX_RECORD_DATE,
        ids.len() * sq.len() <= u64::MAX,
    ensures
        forall|i: int, j: int|
            0 <= i < ids.len() && 0 <= j < sq.len() && pair_selectable(
                db,
                #[trigger] ids[i],
                #[trigger] sq[j],
                now,
            ) ==> seen_uuid(spec_expired_cards(db, ids, sq, now, st).0, ids[i]),
{
    let cards = spec_dates(db, ids, sq);
    let m = sq.len() as int;
    let (exp, never, st1) = spec_collect(cards, now, st);
    let sorted = spec_sort_desc(exp);
    let sorted_pairs = sorted.map_values(|x: ExpiredEntry| (x.uuid, x.kind));
    let (shuffled, st2) = spec_shuffle(never, st1);
    let (merged, st3) = spec_merge(sorted_pairs, shuffled, st2);
    lemma_collect_len(cards, now, st);
    assert forall|i: int, j: int|
        0 <= i < ids.len() && 0 <= j < sq.len() && pair_selectable(
            db,
            #[trigger] ids[i],
            #[trigger] sq[j],
            now,
        ) implies seen_uuid(spec_expired_cards(db, ids, sq, now, st).0, ids[i]) by {
        let t = i * m + j;
        assert(0 <= t && t < ids.len() * m && t / m == i && t % m == j) by (nonlinear_arith)
            requires
                0 <= i < ids.len(),
                0 <= j < m,
                t == i * m + j,
        ;
        assert(cards[t].uuid == ids[i]);
        assert(cards[t].expiration == spec_expiration_date(db, ids[i], sq[j]));
        lemma_collect_member(cards, now, st, t);
        if seen_entry_uuid(exp, ids[i]) {
            lemma_sort_desc_member(exp, ids[i]);
            let q = choose|q: int| 0 <= q < sorted.len() && (#[trigger] sorted[q]).uuid == ids[i];
            assert(sorted_pairs[q].0 == ids[i]);
            lemma_merge_member(sorted_pairs, shuffled, st2, ids[i]);
        } else {
            lemma_shuffle_member(never, never.len() - 1, st1, ids[i]);
            lemma_merge_member(sorted_pairs, shuffled, st2, ids[i]);
        }
        lemma_dedup_seen(merged, ids[i]);
    }
}

/// Three halves of a non-negative duration, rounded toward zero.
pub fn increase(d: i64) -> (r: i64)
    requires
        0 <= d <= MAX_RECORD_DATE,
    ensures
        r == spec_increase(d as int),
{
    (d * 3) / 2
}

/// Half of a non-negative duration, rounded toward zero.
pub fn decrease(d: i64) -> (r: i64)
    requires
        0 <= d <= MAX_RECORD_DATE,
    ensures
        r == spec_decrease(d as int),
{
    d / 2
}

} // verus!
