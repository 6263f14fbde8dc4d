//! What loading the card files turned up, and whether a command may
//! proceed in the face of it.

use vstd::prelude::*;
use crate::uuid::Uuid;

verus! {

#[derive(Debug)]
pub struct Status {
    /// Card files on disk that the store does not know.
    pub unknown_card_files: Vec<String>,
    /// Files holding cards without ids, with the cards' line numbers.
    pub card_files_with_missing_uuids: Vec<(String, Vec<u64>)>,
    /// Ids that more than one card claims.
    pub duplicate_uuids: Vec<Uuid>,
    pub valid_cards: usize,
    pub valid_card_files: usize,
}

impl Status {
    pub fn new() -> (r: Status)
        ensures
            r.unknown_card_files@.len() == 0,
            r.card_files_with_missing_uuids@.len() == 0,
            r.duplicate_uuids@.len() == 0,
            r.valid_cards == 0,
            r.valid_card_files == 0,
    {
        Status {
            unknown_card_files: Vec::new(),
            card_files_with_missing_uuids: Vec::new(),
            duplicate_uuids: Vec::new(),
            valid_cards: 0,
            valid_card_files: 0,
        }
    }

    pub open spec fn spec_contains_fatal(self) -> bool {
        self.card_files_with_missing_uuids@.len() > 0 || self.duplicate_uuids@.len() > 0
    }

    pub open spec fn spec_contains_warnings(self) -> bool {
        self.unknown_card_files@.len() > 0 || self.spec_contains_fatal()
    }

    pub fn contains_fatal(&self) -> (r: bool)
        ensures
            r == self.spec_contains_fatal(),
    {
        self.card_files_with_missing_uuids.len() > 0 || self.duplicate_uuids.len() > 0
    }

    pub fn contains_warnings(&self) -> (r: bool)
        ensures
            r == self.spec_contains_warnings(),
    {
        self.unknown_card_files.len() > 0 || self.contains_fatal()
    }

    /// Whether execution must stop: always on missing or duplicate
    /// ids; on lesser warnings only when `force` was not given.
    pub fn should_stop(&self, force: bool) -> (r: bool)
        ensures
            r == (self.spec_contains_warnings() && (self.spec_contains_fatal() || !force)),
    {
        if !self.contains_warnings() {
            return false;
        }
        if self.contains_fatal() {
            return true;
        }
        if force {
            return false;
        }
        true
    }
}

} // verus!
