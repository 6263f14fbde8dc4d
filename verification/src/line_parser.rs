//! A cursor over the lines of a card file, read into memory up front.

use vstd::prelude::*;
use crate::text::{blank_char, is_blank_char, spec_trim, lemma_leading_blanks_bound, lemma_trim_bounds, leading_blanks};

verus! {

pub struct LineParser {
    pub lines: Vec<String>,
    pub index: usize,
}

impl LineParser {
    pub open spec fn wf(self) -> bool {
        self.index <= self.lines@.len()
    }

    /// The text of the current line: empty once past the end.
    pub open spec fn spec_current_line(self) -> Seq<char> {
        if self.index < self.lines@.len() {
            self.lines@[self.index as int]@
        } else {
            Seq::empty()
        }
    }

    pub fn new(lines: Vec<String>) -> (r: LineParser)
        ensures
            r.wf(),
            r.lines@ == lines@,
            r.index == 0,
    {
        LineParser { lines, index: 0 }
    }

    pub fn current_line(&self) -> (r: &str)
        requires
            self.wf(),
        ensures
            r@ == self.spec_current_line(),
    {
        if self.index < self.lines.len() {
            self.lines[self.index].as_str()
        } else {
            let empty = "";
            proof {
                reveal_strlit("");
                assert(empty@ =~= Seq::<char>::empty());
            }
            empty
        }
    }

    /// Whether the current line holds nothing but blanks.
    pub fn current_line_is_blank(&self) -> (r: bool)
        requires
            self.wf(),
        ensures
            r == (spec_trim(self.spec_current_line()).len() == 0),
    {
        let line = self.current_line();
        let n = line.unicode_len();
        let mut i: usize = 0;
        while i < n
            invariant
                0 <= i <= n,
                n == line@.len(),
                self.wf(),
                line@ == self.spec_current_line(),
                forall|j: int| 0 <= j < i ==> is_blank_char(#[trigger] line@[j]),
            decreases n - i,
        {
            if !blank_char(line.get_char(i)) {
                proof {
                    lemma_leading_blanks_bound(line@);
                    crate::text::lemma_trailing_blanks_bound(line@);
                    lemma_trim_bounds(line@);
                    assert(leading_blanks(line@) <= i);
                }
                return false;
            }
            i += 1;
        }
        proof {
            lemma_leading_blanks_bound(line@);
            if leading_blanks(line@) < line@.len() {
                assert(is_blank_char(line@[leading_blanks(line@)]));
            }
        }
        true
    }

    pub fn eof(&self) -> (r: bool)
        requires
            self.wf(),
        ensures
            r == (self.index == self.lines@.len()),
    {
        self.index >= self.lines.len()
    }

    /// One-based number of the current line.
    pub fn line_number(&self) -> (r: u64)
        requires
            self.wf(),
            self.index < u64::MAX,
        ensures
            r == self.index + 1,
    {
        (self.index as u64) + 1
    }

    /// Advances to the next line; does nothing once past the end.
    pub fn read_next_line(&mut self)
        requires
            old(self).wf(),
        ensures
            final(self).wf(),
            final(self).lines@ == old(self).lines@,
            final(self).index == if old(self).index < old(self).lines@.len() {
                old(self).index + 1
            } else {
                old(self).index as int
            },
    {
        if self.index < self.lines.len() {
            self.index = self.index + 1;
        }
    }
}

} // verus!
