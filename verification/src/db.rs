//! The answer-history store: which questions were asked of which card,
//! when, and how the user did.  Pure data; persistence lives outside.
//!
//! Timestamps are seconds, durations are differences of timestamps.

use vstd::prelude::*;
use vstd::pervasive::VecAdditionalExecFns;
use crate::language::Language;
use crate::uuid::Uuid;

verus! {

/// Upper bound on any stored timestamp, far enough out that the
/// expiration arithmetic (a gap scaled by 3/2 and added to a date)
/// cannot overflow an `i64`.
pub const MAX_RECORD_DATE: i64 = 0x000f_ffff_ffff_ffff;

#[derive(Clone, Copy, Debug, PartialEq, Eq, Hash, Structural)]
pub enum QuestionResult {
    /// User knew it.
    Yes,
    /// User got it wrong, but reported that they "almost" knew it.
    Almost,
    /// User didn't know it.
    No,
}

#[derive(Clone, Copy, Debug, PartialEq, Eq, Hash, Structural)]
pub enum QuestionKind {
    Translate { from: Language, to: Language },
}

/// One row per time a question kind was asked of a card.
#[derive(Clone, Copy, Debug, PartialEq, Eq, Structural)]
pub struct QuestionRecord {
    /// ...when did we ask?  Seconds.
    pub date: i64,
    /// ...did they know the answer?
    pub result: QuestionResult,
}

/// Per-card history: for each question kind, the records in the order
/// they were appended (chronological in normal operation).
#[derive(Clone, Debug)]
pub struct CardRecord {
    pub entries: Vec<(QuestionKind, Vec<QuestionRecord>)>,
}

/// An element-by-element copy of a record vector.
fn copy_records(v: &Vec<QuestionRecord>) -> (r: Vec<QuestionRecord>)
    ensures
        r@ == v@,
{
    let mut r: Vec<QuestionRecord> = Vec::new();
    let mut j: usize = 0;
    while j < v.len()
        invariant
            0 <= j <= v@.len(),
            r@ == v@.take(j as int),
        decreases v@.len() - j,
    {
        r.push(v[j]);
        proof {
            assert(r@ =~= v@.take(j + 1));
        }
        j += 1;
    }
    proof {
        assert(v@.take(v@.len() as int) =~= v@);
    }
    r
}

impl CardRecord {
    /// The history sequence for `kind`; empty when never asked.
    pub open spec fn spec_questions(self, kind: QuestionKind) -> Seq<QuestionRecord> {
        Self::lookup(self.entries@, kind)
    }

    pub open spec fn lookup(
        entries: Seq<(QuestionKind, Vec<QuestionRecord>)>,
        kind: QuestionKind,
    ) -> Seq<QuestionRecord>
        decreases entries.len(),
    {
        if entries.len() == 0 {
            Seq::empty()
        } else if entries[0].0 == kind {
            entries[0].1@
        } else {
            Self::lookup(entries.drop_first(), kind)
        }
    }

    /// Looking a key up lands on its first entry.
    proof fn lemma_lookup_at(
        entries: Seq<(QuestionKind, Vec<QuestionRecord>)>,
        i: int,
        kind: QuestionKind,
    )
        requires
            0 <= i < entries.len(),
            entries[i].0 == kind,
            forall|j: int| 0 <= j < i ==> (#[trigger] entries[j]).0 != kind,
        ensures
            Self::lookup(entries, kind) == entries[i].1@,
        decreases i,
    {
        if i > 0 {
            Self::lemma_lookup_at(entries.drop_first(), i - 1, kind);
        }
    }

    /// A key absent from every entry looks up to the empty history.
    proof fn lemma_lookup_absent(
        entries: Seq<(QuestionKind, Vec<QuestionRecord>)>,
        kind: QuestionKind,
    )
        requires
            forall|j: int| 0 <= j < entries.len() ==> (#[trigger] entries[j]).0 != kind,
        ensures
            Self::lookup(entries, kind) == Seq::<QuestionRecord>::empty(),
        decreases entries.len(),
    {
        if entries.len() > 0 {
            Self::lemma_lookup_absent(entries.drop_first(), kind);
        }
    }

    /// Each question kind holds at most one entry.
    pub open spec fn keys_unique(self) -> bool {
        forall|i: int, j: int|
            0 <= i < j < self.entries@.len() ==> (#[trigger] self.entries@[i]).0 != (
            #[trigger] self.entries@[j]).0
    }

    /// Dates are in range and each per-kind sequence ascends by date.
    pub open spec fn dates_well_formed(self) -> bool {
        forall|i: int|
            0 <= i < self.entries@.len() ==> Self::seq_dates_well_formed(
                (#[trigger] self.entries@[i]).1@,
            )
    }

    pub open spec fn seq_dates_well_formed(qs: Seq<QuestionRecord>) -> bool {
        &&& forall|i: int| 0 <= i < qs.len() ==> 0 <= (#[trigger] qs[i]).date <= MAX_RECORD_DATE
        &&& forall|i: int, j: int| 0 <= i <= j < qs.len() ==> qs[i].date <= qs[j].date
    }

    pub open spec fn wf(self) -> bool {
        self.keys_unique() && self.dates_well_formed()
    }

    pub fn new() -> (r: CardRecord)
        ensures
            r.wf(),
            forall|k: QuestionKind| r.spec_questions(k) == Seq::<QuestionRecord>::empty(),
    {
        CardRecord { entries: Vec::new() }
    }

    /// The history for `kind`, oldest first (copy; records are small).
    pub fn questions(&self, kind: QuestionKind) -> (r: Vec<QuestionRecord>)
        ensures
            r@ == self.spec_questions(kind),
    {
        let mut i: usize = 0;
        while i < self.entries.len()
            invariant
                0 <= i <= self.entries@.len(),
                forall|j: int| 0 <= j < i ==> (#[trigger] self.entries@[j]).0 != kind,
            decreases self.entries@.len() - i,
        {
            if self.entries[i].0 == kind {
                proof {
                    Self::lemma_lookup_at(self.entries@, i as int, kind);
                }
                let qs = &self.entries[i].1;
                let mut r: Vec<QuestionRecord> = Vec::new();
                let mut j: usize = 0;
                while j < qs.len()
                    invariant
                        0 <= j <= qs@.len(),
                        r@ == qs@.take(j as int),
                    decreases qs@.len() - j,
                {
                    r.push(qs[j]);
                    proof {
                        assert(r@ =~= qs@.take(j + 1));
                    }
                    j += 1;
                }
                proof {
                    assert(qs@.take(qs@.len() as int) =~= qs@);
                }
                return r;
            }
            i += 1;
        }
        proof {
            Self::lemma_lookup_absent(self.entries@, kind);
        }
        Vec::new()
    }

    /// Appends one record to the history of `kind`, creating the entry
    /// on first touch.  Histories of other kinds are untouched.
    pub fn push_question_record(&mut self, kind: QuestionKind, record: QuestionRecord)
        ensures
            final(self).spec_questions(kind) == old(self).spec_questions(kind).push(record),
            forall|k: QuestionKind|
                k != kind ==> #[trigger] final(self).spec_questions(k) == old(self).spec_questions(
                    k,
                ),
            old(self).keys_unique() ==> final(self).keys_unique(),
            old(self).wf() && 0 <= record.date <= MAX_RECORD_DATE && (forall|i: int|
                0 <= i < old(self).spec_questions(kind).len() ==> (#[trigger] old(
                    self,
                ).spec_questions(kind)[i]).date <= record.date) ==> final(self).wf(),
    {
        let ghost entries0 = self.entries@;
        let mut i: usize = 0;
        while i < self.entries.len()
            invariant
                0 <= i <= self.entries@.len(),
                self.entries@ == entries0,
                entries0 == old(self).entries@,
                forall|j: int| 0 <= j < i ==> (#[trigger] entries0[j]).0 != kind,
            decreases self.entries@.len() - i,
        {
            if self.entries[i].0 == kind {
                proof {
                    Self::lemma_lookup_at(entries0, i as int, kind);
                }
                let mut qs = copy_records(&self.entries[i].1);
                qs.push(record);
                self.entries.set(i, (kind, qs));
                proof {
                    let entries1 = self.entries@;
                    assert(entries1.len() == entries0.len());
                    assert forall|j: int|
                        0 <= j < entries0.len() && j != i implies #[trigger] entries1[j]
                        == entries0[j] by {}
                    assert(entries1[i as int].0 == kind);
                    assert(entries1[i as int].1@ == entries0[i as int].1@.push(record));
                    assert forall|j: int| 0 <= j < i implies (#[trigger] entries1[j]).0 != kind by {
                        assert(entries1[j] == entries0[j]);
                    }
                    Self::lemma_lookup_at(entries1, i as int, kind);
                    assert forall|k: QuestionKind| k != kind implies #[trigger] Self::lookup(
                        entries1,
                        k,
                    ) == Self::lookup(entries0, k) by {
                        Self::lemma_lookup_other(entries0, entries1, i as int, k);
                    }
                    assert forall|a: int, b: int|
                        0 <= a < b < entries1.len() implies (#[trigger] entries1[a]).0 != (
                        #[trigger] entries1[b]).0 || !old(self).keys_unique() by {
                        if old(self).keys_unique() {
                            assert(entries1[a].0 == entries0[a].0);
                            assert(entries1[b].0 == entries0[b].0);
                        }
                    }
                    if old(self).wf() && 0 <= record.date <= MAX_RECORD_DATE && (forall|p: int|
                        0 <= p < old(self).spec_questions(kind).len() ==> (#[trigger] old(
                            self,
                        ).spec_questions(kind)[p]).date <= record.date) {
                        assert forall|j: int|
                            0 <= j < entries1.len() implies Self::seq_dates_well_formed(
                            (#[trigger] entries1[j]).1@,
                        ) by {
                            if j != i {
                                assert(entries1[j] == entries0[j]);
                                assert(Self::seq_dates_well_formed(entries0[j].1@));
                            } else {
                                assert(Self::seq_dates_well_formed(entries0[j].1@));
                                assert(old(self).spec_questions(kind) == entries0[i as int].1@);
                            }
                        }
                    }
                }
                return ;
            }
            i += 1;
        }
        proof {
            Self::lemma_lookup_absent(entries0, kind);
        }
        let mut one = Vec::new();
        one.push(record);
        self.entries.push((kind, one));
        proof {
            let entries1 = self.entries@;
            let n = entries0.len() as int;
            assert(entries1[n].0 == kind);
            assert forall|j: int| 0 <= j < n implies (#[trigger] entries1[j]).0 != kind by {
                assert(entries1[j] == entries0[j]);
            }
            Self::lemma_lookup_at(entries1, n, kind);
            assert(final(self).spec_questions(kind) =~= old(self).spec_questions(kind).push(
                record,
            ));
            assert forall|k: QuestionKind| k != kind implies #[trigger] Self::lookup(entries1, k)
                == Self::lookup(entries0, k) by {
                Self::lemma_lookup_other(entries0, entries1, n, k);
            }
            if old(self).keys_unique() {
                assert forall|a: int, b: int|
                    0 <= a < b < entries1.len() implies (#[trigger] entries1[a]).0 != (
                    #[trigger] entries1[b]).0 by {
                    if b < n {
                        assert(entries1[a] == entries0[a]);
                        assert(entries1[b] == entries0[b]);
                    } else {
                        assert(entries1[a] == entries0[a]);
                    }
                }
            }
            if old(self).wf() && 0 <= record.date <= MAX_RECORD_DATE {
                assert forall|j: int|
                    0 <= j < entries1.len() implies Self::seq_dates_well_formed(
                    (#[trigger] entries1[j]).1@,
                ) by {
                    if j < n {
                        assert(entries1[j] == entries0[j]);
                        assert(Self::seq_dates_well_formed(entries0[j].1@));
                    }
                }
            }
        }
    }

    /// Changing or adding the entry at `i` leaves other keys' histories
    /// unchanged, as long as positions off `i` keep their values.
    proof fn lemma_lookup_other(
        entries0: Seq<(QuestionKind, Vec<QuestionRecord>)>,
        entries1: Seq<(QuestionKind, Vec<QuestionRecord>)>,
        i: int,
        k: QuestionKind,
    )
        requires
            0 <= i < entries1.len(),
            entries0.len() == entries1.len() || entries0.len() + 1 == entries1.len(),
            entries0.len() <= entries1.len(),
            i < entries0.len() ==> entries0[i].0 == entries1[i].0,
            forall|j: int| 0 <= j < entries0.len() && j != i ==> entries1[j] == entries0[j],
            i == entries0.len() || entries0.len() == entries1.len(),
            k != entries1[i].0,
        ensures
            Self::lookup(entries1, k) == Self::lookup(entries0, k),
        decreases entries1.len(),
    {
        if entries0.len() == 0 {
            // `entries1` is at most one entry, and it is not `k`'s
            if entries1.len() == 1 {
                assert(entries1.drop_first() =~= Seq::<(QuestionKind, Vec<QuestionRecord>)>::empty());
                assert(Self::lookup(entries1.drop_first(), k) == Seq::<QuestionRecord>::empty());
            }
        } else if i == 0 {
            assert(entries1.drop_first() =~= entries0.drop_first());
        } else {
            if entries1[0].0 == k {
                assert(entries0[0] == entries1[0]);
            } else {
                Self::lemma_lookup_other(entries0.drop_first(), entries1.drop_first(), i - 1, k);
            }
        }
    }

    /// An entry-by-entry copy; same histories, same well-formedness.
    pub fn duplicate(&self) -> (r: CardRecord)
        ensures
            forall|k: QuestionKind| #[trigger] r.spec_questions(k) == self.spec_questions(k),
            self.keys_unique() ==> r.keys_unique(),
            self.wf() ==> r.wf(),
    {
        let mut entries: Vec<(QuestionKind, Vec<QuestionRecord>)> = Vec::new();
        let mut i: usize = 0;
        while i < self.entries.len()
            invariant
                0 <= i <= self.entries@.len(),
                entries@.len() == i,
                forall|j: int|
                    0 <= j < i ==> (#[trigger] entries@[j]).0 == self.entries@[j].0
                        && entries@[j].1@ == self.entries@[j].1@,
            decreases self.entries@.len() - i,
        {
            let qs = copy_records(&self.entries[i].1);
            entries.push((self.entries[i].0, qs));
            i += 1;
        }
        let r = CardRecord { entries };
        proof {
            assert forall|k: QuestionKind| #[trigger] r.spec_questions(k) == self.spec_questions(
                k,
            ) by {
                Self::lemma_lookup_congruent(r.entries@, self.entries@, k);
            }
            if self.keys_unique() {
                assert forall|a: int, b: int|
                    0 <= a < b < r.entries@.len() implies (#[trigger] r.entries@[a]).0 != (
                    #[trigger] r.entries@[b]).0 by {
                    assert(r.entries@[a].0 == self.entries@[a].0);
                    assert(r.entries@[b].0 == self.entries@[b].0);
                }
            }
            if self.dates_well_formed() {
                assert forall|j: int|
                    0 <= j < r.entries@.len() implies Self::seq_dates_well_formed(
                    (#[trigger] r.entries@[j]).1@,
                ) by {
                    assert(r.entries@[j].1@ == self.entries@[j].1@);
                    assert(Self::seq_dates_well_formed(self.entries@[j].1@));
                }
            }
        }
        r
    }

    /// Lookup only reads the key and the view of each entry.
    proof fn lemma_lookup_congruent(
        a: Seq<(QuestionKind, Vec<QuestionRecord>)>,
        b: Seq<(QuestionKind, Vec<QuestionRecord>)>,
        k: QuestionKind,
    )
        requires
            a.len() == b.len(),
            forall|j: int| 0 <= j < a.len() ==> (#[trigger] a[j]).0 == b[j].0 && a[j].1@ == b[j].1@,
        ensures
            Self::lookup(a, k) == Self::lookup(b, k),
        decreases a.len(),
    {
        if a.len() > 0 && a[0].0 != k {
            assert forall|j: int|
                0 <= j < a.drop_first().len() implies (#[trigger] a.drop_first()[j]).0
                == b.drop_first()[j].0 && a.drop_first()[j].1@ == b.drop_first()[j].1@ by {
                assert(a.drop_first()[j] == a[j + 1]);
                assert(b.drop_first()[j] == b[j + 1]);
            }
            Self::lemma_lookup_congruent(a.drop_first(), b.drop_first(), k);
        }
    }

    /// Decides well-formedness: each kind at most once, dates in range
    /// and ascending within each history.
    pub fn check_well_formed(&self) -> (r: bool)
        ensures
            r == self.wf(),
    {
        let mut i: usize = 0;
        while i < self.entries.len()
            invariant
                0 <= i <= self.entries@.len(),
                forall|a: int, b: int|
                    0 <= a < b < i ==> (#[trigger] self.entries@[a]).0 != (
                    #[trigger] self.entries@[b]).0,
                forall|a: int|
                    0 <= a < i ==> Self::seq_dates_well_formed((#[trigger] self.entries@[a]).1@),
            decreases self.entries@.len() - i,
        {
            let mut j: usize = 0;
            while j < i
                invariant
                    0 <= j <= i < self.entries@.len(),
                    forall|a: int|
                        0 <= a < j ==> (#[trigger] self.entries@[a]).0 != self.entries@[i as int].0,
                decreases i - j,
            {
                if self.entries[j].0 == self.entries[i].0 {
                    return false;
                }
                j += 1;
            }
            let qs = &self.entries[i].1;
            let mut k: usize = 0;
            while k < qs.len()
                invariant
                    0 <= k <= qs@.len(),
                    0 <= i < self.entries@.len(),
                    qs@ == self.entries@[i as int].1@,
                    forall|a: int| 0 <= a < k ==> 0 <= (#[trigger] qs@[a]).date <= MAX_RECORD_DATE,
                    forall|a: int, b: int| 0 <= a <= b < k ==> qs@[a].date <= qs@[b].date,
                decreases qs@.len() - k,
            {
                if qs[k].date < 0 || qs[k].date > MAX_RECORD_DATE {
                    proof {
                        assert(!Self::seq_dates_well_formed(qs@));
                    }
                    return false;
                }
                if k > 0 && qs[k - 1].date > qs[k].date {
                    proof {
                        assert(!Self::seq_dates_well_formed(qs@));
                    }
                    return false;
                }
                k += 1;
            }
            i += 1;
        }
        true
    }

    /// When the question was last asked, if ever.
    pub fn last_asked(&self, kind: QuestionKind) -> (r: Option<i64>)
        ensures
            r == if self.spec_questions(kind).len() == 0 {
                None::<i64>
            } else {
                Some(self.spec_questions(kind).last().date)
            },
    {
        let qs = self.questions(kind);
        if qs.len() == 0 {
            None
        } else {
            Some(qs[qs.len() - 1].date)
        }
    }

    /// Index of the most recent record of `kind` with the given result.
    pub fn most_recent_question_with_result(
        &self,
        kind: QuestionKind,
        result: QuestionResult,
    ) -> (r: Option<usize>)
        ensures
            match r {
                Some(i) => {
                    &&& 0 <= i < self.spec_questions(kind).len()
                    &&& self.spec_questions(kind)[i as int].result == result
                    &&& forall|j: int|
                        i < j < self.spec_questions(kind).len() ==> (#[trigger] self.spec_questions(
                            kind,
                        )[j]).result != result
                },
                None => forall|j: int|
                    0 <= j < self.spec_questions(kind).len() ==> (#[trigger] self.spec_questions(
                        kind,
                    )[j]).result != result,
            },
    {
        let qs = self.questions(kind);
        let mut i: usize = qs.len();
        while i > 0
            invariant
                0 <= i <= qs@.len(),
                qs@ == self.spec_questions(kind),
                forall|j: int| i <= j < qs@.len() ==> (#[trigger] qs@[j]).result != result,
            decreases i,
        {
            i -= 1;
            if qs[i].result == result {
                return Some(i);
            }
        }
        None
    }

    /// Adjacent pairs of the history of `kind`, most recent pair first:
    /// with records `Q0..Qn`, yields `(Q(n-2), Q(n-1)), ..., (Q0, Q1)`.
    pub fn question_pairs(&self, kind: QuestionKind) -> (r: Vec<(QuestionRecord, QuestionRecord)>)
        ensures
            r@.len() == if self.spec_questions(kind).len() == 0 {
                0int
            } else {
                self.spec_questions(kind).len() - 1
            },
            forall|p: int|
                0 <= p < r@.len() ==> #[trigger] r@[p] == (
                self.spec_questions(kind)[self.spec_questions(kind).len() - 2 - p],
                self.spec_questions(kind)[self.spec_questions(kind).len() - 1 - p],
            ),
    {
        let qs = self.questions(kind);
        let mut r: Vec<(QuestionRecord, QuestionRecord)> = Vec::new();
        if qs.len() == 0 {
            return r;
        }
        let mut i: usize = qs.len() - 1;
        while i > 0
            invariant
                0 <= i <= qs@.len() - 1,
                qs@ == self.spec_questions(kind),
                r@.len() == qs@.len() - 1 - i,
                forall|p: int|
                    0 <= p < r@.len() ==> #[trigger] r@[p] == (
                    qs@[qs@.len() - 2 - p],
                    qs@[qs@.len() - 1 - p],
                ),
            decreases i,
        {
            r.push((qs[i - 1], qs[i]));
            i -= 1;
        }
        r
    }
}

impl QuestionKind {
    /// Which card lines provide the prompt for this question kind.
    pub fn prompt_line_kind(self) -> (r: crate::cards::LineKind)
        ensures
            r == (match self {
                QuestionKind::Translate { from, to } => crate::cards::LineKind::Meaning(from),
            }),
    {
        match self {
            QuestionKind::Translate { from, to: _ } => crate::cards::LineKind::Meaning(from),
        }
    }

    /// Which card lines hold the responses this question kind expects.
    pub fn response_line_kind(self) -> (r: crate::cards::LineKind)
        ensures
            r == (match self {
                QuestionKind::Translate { from, to } => crate::cards::LineKind::Meaning(to),
            }),
    {
        match self {
            QuestionKind::Translate { from: _, to } => crate::cards::LineKind::Meaning(to),
        }
    }

    /// Which language the user's response should arrive in.
    pub fn response_language(self) -> (r: Language)
        ensures
            r == (match self {
                QuestionKind::Translate { from, to } => to,
            }),
    {
        match self {
            QuestionKind::Translate { from: _, to } => to,
        }
    }

    /// The instruction shown when this question kind is asked.
    pub open spec fn spec_prompt_text(self) -> Seq<char> {
        match self {
            QuestionKind::Translate { from, to } => "render from "@ + from.spec_full_name()
                + " to "@ + to.spec_full_name(),
        }
    }

    pub fn prompt_text(self) -> (r: String)
        ensures
            r@ == self.spec_prompt_text(),
    {
        match self {
            QuestionKind::Translate { from, to } => {
                let mut s = String::from_str("render from ");
                s.append(from.full_name());
                s.append(" to ");
                s.append(to.full_name());
                proof {
                    assert(s@ =~= self.spec_prompt_text());
                }
                s
            },
        }
    }
}

/// Records per user: card id to its per-kind history.
#[derive(Clone, Debug)]
pub struct User {
    pub records: Vec<(Uuid, CardRecord)>,
}

/// The history store: which card files are registered, and the per-card
/// records.  Loaded from a snapshot, mutated in memory, saved whole.
#[derive(Clone, Debug)]
pub struct Database {
    /// Path to each card file, relative to the store's directory.
    pub card_files: Vec<String>,
    /// Records specific to a given user (one user per directory).
    pub user: User,
}

impl User {
    pub open spec fn spec_record(self, uuid: Uuid) -> Option<CardRecord> {
        Self::lookup(self.records@, uuid)
    }

    pub open spec fn lookup(records: Seq<(Uuid, CardRecord)>, uuid: Uuid) -> Option<CardRecord>
        decreases records.len(),
    {
        if records.len() == 0 {
            None
        } else if records[0].0 == uuid {
            Some(records[0].1)
        } else {
            Self::lookup(records.drop_first(), uuid)
        }
    }

    /// Looking a card up lands on its first entry.
    proof fn lemma_lookup_at(records: Seq<(Uuid, CardRecord)>, i: int, uuid: Uuid)
        requires
            0 <= i < records.len(),
            records[i].0 == uuid,
            forall|j: int| 0 <= j < i ==> (#[trigger] records[j]).0 != uuid,
        ensures
            Self::lookup(records, uuid) == Some(records[i].1),
        decreases i,
    {
        if i > 0 {
            Self::lemma_lookup_at(records.drop_first(), i - 1, uuid);
        }
    }

    /// A card absent from every entry looks up to no record.
    proof fn lemma_lookup_absent(records: Seq<(Uuid, CardRecord)>, uuid: Uuid)
        requires
            forall|j: int| 0 <= j < records.len() ==> (#[trigger] records[j]).0 != uuid,
        ensures
            Self::lookup(records, uuid) is None,
        decreases records.len(),
    {
        if records.len() > 0 {
            Self::lemma_lookup_absent(records.drop_first(), uuid);
        }
    }

    /// Changing or adding the entry at `i` leaves other cards' records
    /// unchanged, as long as positions off `i` keep their values.
    proof fn lemma_lookup_other(
        records0: Seq<(Uuid, CardRecord)>,
        records1: Seq<(Uuid, CardRecord)>,
        i: int,
        u: Uuid,
    )
        requires
            0 <= i < records1.len(),
            records0.len() <= records1.len(),
            i < records0.len() ==> records0[i].0 == records1[i].0,
            forall|j: int| 0 <= j < records0.len() && j != i ==> records1[j] == records0[j],
            i == records0.len() || records0.len() == records1.len(),
            records0.len() == records1.len() || records0.len() + 1 == records1.len(),
            u != records1[i].0,
        ensures
            Self::lookup(records1, u) == Self::lookup(records0, u),
        decreases records1.len(),
    {
        if records0.len() == 0 {
            if records1.len() == 1 {
                assert(records1.drop_first() =~= Seq::<(Uuid, CardRecord)>::empty());
                assert(Self::lookup(records1.drop_first(), u) is None);
            }
        } else if i == 0 {
            assert(records1.drop_first() =~= records0.drop_first());
        } else {
            if records1[0].0 == u {
                assert(records0[0] == records1[0]);
            } else {
                Self::lemma_lookup_other(records0.drop_first(), records1.drop_first(), i - 1, u);
            }
        }
    }

    pub open spec fn keys_unique(self) -> bool {
        forall|i: int, j: int|
            0 <= i < j < self.records@.len() ==> (#[trigger] self.records@[i]).0 != (
            #[trigger] self.records@[j]).0
    }

    pub open spec fn wf(self) -> bool {
        &&& self.keys_unique()
        &&& forall|i: int| 0 <= i < self.records@.len() ==> (#[trigger] self.records@[i]).1.wf()
    }
}

impl Database {
    pub open spec fn spec_record(self, uuid: Uuid) -> Option<CardRecord> {
        self.user.spec_record(uuid)
    }

    pub open spec fn wf(self) -> bool {
        self.user.wf()
    }

    /// The history for `(uuid, kind)`: empty when the card has no record.
    pub open spec fn spec_questions(self, uuid: Uuid, kind: QuestionKind) -> Seq<QuestionRecord> {
        match self.spec_record(uuid) {
            None => Seq::empty(),
            Some(rec) => rec.spec_questions(kind),
        }
    }

    pub fn empty() -> (r: Database)
        ensures
            r.wf(),
            r.card_files@.len() == 0,
            forall|u: Uuid| #[trigger] r.spec_record(u) is None,
    {
        Database { card_files: Vec::new(), user: User { records: Vec::new() } }
    }

    /// Whether `path` is one of the registered card files.
    pub fn contains_card_file(&self, path: &String) -> (r: bool)
        ensures
            r == exists|i: int|
                0 <= i < self.card_files@.len() && (#[trigger] self.card_files@[i])@ == path@,
    {
        let mut i: usize = 0;
        while i < self.card_files.len()
            invariant
                0 <= i <= self.card_files@.len(),
                forall|j: int| 0 <= j < i ==> (#[trigger] self.card_files@[j])@ != path@,
            decreases self.card_files@.len() - i,
        {
            if crate::text::str_eq(self.card_files[i].as_str(), path.as_str()) {
                return true;
            }
            i += 1;
        }
        false
    }

    /// Appends one record to the history of `(uuid, kind)`, creating an
    /// empty card record on first touch.  All other histories keep.
    pub fn push_question_record(&mut self, uuid: Uuid, kind: QuestionKind, record: QuestionRecord)
        ensures
            final(self).spec_questions(uuid, kind) == old(self).spec_questions(uuid, kind).push(
                record,
            ),
            forall|u: Uuid, k: QuestionKind|
                u != uuid || k != kind ==> #[trigger] final(self).spec_questions(u, k) == old(
                    self,
                ).spec_questions(u, k),
            final(self).card_files@ == old(self).card_files@,
            old(self).user.keys_unique() ==> final(self).user.keys_unique(),
    {
        let ghost records0 = self.user.records@;
        let mut i: usize = 0;
        while i < self.user.records.len()
            invariant
                0 <= i <= self.user.records@.len(),
                self.user.records@ == records0,
                records0 == old(self).user.records@,
                self.card_files@ == old(self).card_files@,
                forall|j: int| 0 <= j < i ==> (#[trigger] records0[j]).0 != uuid,
            decreases self.user.records@.len() - i,
        {
            if self.user.records[i].0 == uuid {
                proof {
                    User::lemma_lookup_at(records0, i as int, uuid);
                }
                let mut rec = self.user.records[i].1.duplicate();
                rec.push_question_record(kind, record);
                self.user.records.set(i, (uuid, rec));
                proof {
                    let records1 = self.user.records@;
                    assert(records1.len() == records0.len());
                    assert forall|j: int|
                        0 <= j < records0.len() && j != i implies #[trigger] records1[j]
                        == records0[j] by {}
                    assert(records1[i as int].0 == uuid);
                    assert forall|j: int| 0 <= j < i implies (#[trigger] records1[j]).0 != uuid by {
                        assert(records1[j] == records0[j]);
                    }
                    User::lemma_lookup_at(records1, i as int, uuid);
                    assert forall|u: Uuid| u != uuid implies #[trigger] User::lookup(records1, u)
                        == User::lookup(records0, u) by {
                        User::lemma_lookup_other(records0, records1, i as int, u);
                    }
                    if old(self).user.keys_unique() {
                        assert forall|a: int, b: int|
                            0 <= a < b < records1.len() implies (#[trigger] records1[a]).0 != (
                            #[trigger] records1[b]).0 by {
                            assert(records1[a].0 == records0[a].0);
                            assert(records1[b].0 == records0[b].0);
                        }
                    }
                }
                return ;
            }
            i += 1;
        }
        proof {
            User::lemma_lookup_absent(records0, uuid);
        }
        let mut rec = CardRecord::new();
        rec.push_question_record(kind, record);
        self.user.records.push((uuid, rec));
        proof {
            let records1 = self.user.records@;
            let n = records0.len() as int;
            assert forall|j: int| 0 <= j < n implies (#[trigger] records1[j]).0 != uuid by {
                assert(records1[j] == records0[j]);
            }
            User::lemma_lookup_at(records1, n, uuid);
            assert(final(self).spec_questions(uuid, kind) =~= old(self).spec_questions(
                uuid,
                kind,
            ).push(record));
            assert forall|u: Uuid| u != uuid implies #[trigger] User::lookup(records1, u)
                == User::lookup(records0, u) by {
                User::lemma_lookup_other(records0, records1, n, u);
            }
        }
    }

    /// Decides well-formedness of the whole store: each card at most
    /// once, every record itself well formed.
    pub fn check_well_formed(&self) -> (r: bool)
        ensures
            r == self.wf(),
    {
        let records = &self.user.records;
        let mut i: usize = 0;
        while i < records.len()
            invariant
                0 <= i <= records@.len(),
                records@ == self.user.records@,
                forall|a: int, b: int|
                    0 <= a < b < i ==> (#[trigger] records@[a]).0 != (#[trigger] records@[b]).0,
                forall|a: int| 0 <= a < i ==> (#[trigger] records@[a]).1.wf(),
            decreases records@.len() - i,
        {
            let mut j: usize = 0;
            while j < i
                invariant
                    0 <= j <= i < records@.len(),
                    records@ == self.user.records@,
                    forall|a: int| 0 <= a < j ==> (#[trigger] records@[a]).0 != records@[i as int].0,
                decreases i - j,
            {
                if records[j].0 == records[i].0 {
                    return false;
                }
                j += 1;
            }
            if !records[i].1.check_well_formed() {
                return false;
            }
            i += 1;
        }
        true
    }

    /// The record of a card, if it has ever been touched.
    pub fn card_record(&self, uuid: Uuid) -> (r: Option<&CardRecord>)
        ensures
            match r {
                None => self.spec_record(uuid) is None,
                Some(rec) => self.spec_record(uuid) == Some(*rec),
            },
    {
        let records = &self.user.records;
        let mut i: usize = 0;
        while i < records.len()
            invariant
                0 <= i <= records@.len(),
                records@ == self.user.records@,
                forall|j: int| 0 <= j < i ==> (#[trigger] records@[j]).0 != uuid,
            decreases records@.len() - i,
        {
            if records[i].0 == uuid {
                proof {
                    User::lemma_lookup_at(records@, i as int, uuid);
                }
                return Some(&records[i].1);
            }
            i += 1;
        }
        proof {
            User::lemma_lookup_absent(records@, uuid);
        }
        None
    }
}

} // verus!
