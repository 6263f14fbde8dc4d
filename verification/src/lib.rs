//! Scheduling engine for a spaced-repetition flashcard trainer.
//!
//! The crate holds the answer-history store, the expiration model that
//! decides when a card-question pair is due again, the session builder
//! that orders due and never-asked pairs into one queue, and the quiz
//! driver that walks that queue as a state machine.  Presentation and
//! durable storage live outside; the engine works on plain values.
//!
//! The main guarantees, stated and proved in the named modules:
//!
//! * `selection::lemma_expiration_some_iff` — a history yields a review
//!   interval exactly when it holds at least two records, and
//!   `selection::lemma_expiration_reducers` says which reducer the
//!   trailing outcome picks.
//! * `selection::expired_cards` returns the session order as a pure
//!   function of store, cards, time and random state, with no card id
//!   twice; `selection::lemma_expired_subsequence_order` keeps the due
//!   pairs most-overdue first, `selection::lemma_session_reproducible`
//!   makes a seeded session reproducible, and
//!   `selection::lemma_queue_exhausts_cards` lets no schedulable card
//!   go missing.
//! * `quiz::QuizDriver::step` appends at most one outcome per step, for
//!   the item in hand, and grades a fully matched answer set `Yes`
//!   without ever requesting the grading callback.

pub mod cards;
pub mod db;
pub mod errors;
pub mod language;
pub mod line_parser;
pub mod quiz;
pub mod rng;
pub mod selection;
pub mod status;
pub mod text;
pub mod uuid;
