//! Languages a card can carry meanings in, and the keyboard-to-script
//! transliteration used when the user types a response.

use vstd::prelude::*;
use crate::text::{chars_of_str, string_from_chars};

verus! {

#[derive(Clone, Copy, Debug, PartialEq, Eq, Hash, Structural)]
pub enum Language {
    English,
    Greek,
}

impl Language {
    pub open spec fn spec_abbreviation(self) -> Seq<char> {
        match self {
            Language::English => seq!['e', 'n'],
            Language::Greek => seq!['g', 'r'],
        }
    }

    /// Two-letter tag used as the line-kind word in card files.
    pub fn abbreviation(self) -> (r: &'static str)
        ensures
            r@ == self.spec_abbreviation(),
    {
        match self {
            Language::English => {
                proof {
                    reveal_strlit("en");
                }
                "en"
            },
            Language::Greek => {
                proof {
                    reveal_strlit("gr");
                }
                "gr"
            },
        }
    }

    pub open spec fn spec_full_name(self) -> Seq<char> {
        match self {
            Language::English => "English"@,
            Language::Greek => "\u{0395}\u{03bb}\u{03bb}\u{03b7}\u{03bd}\u{03b9}\u{03ba}\u{03ac}"@,
        }
    }

    /// Human-readable name of the language, in that language.
    pub fn full_name(self) -> (r: &'static str)
        ensures
            r@ == self.spec_full_name(),
    {
        match self {
            Language::English => "English",
            Language::Greek => "\u{0395}\u{03bb}\u{03bb}\u{03b7}\u{03bd}\u{03b9}\u{03ba}\u{03ac}",
        }
    }

    /// What one typed character appends, given what stands before it.
    pub open spec fn spec_push_char(self, s: Seq<char>, c: char) -> Seq<char> {
        match self {
            Language::English => s.push(c),
            Language::Greek => spec_push_gr_char(s, c),
        }
    }

    /// A whole line typed on the Latin keyboard, character by character.
    pub open spec fn spec_transliterate(self, input: Seq<char>) -> Seq<char>
        decreases input.len(),
    {
        if input.len() == 0 {
            Seq::empty()
        } else {
            self.spec_push_char(self.spec_transliterate(input.drop_last()), input.last())
        }
    }

    /// Appends one typed character to the buffer, applying the
    /// language's keyboard mapping.
    pub fn push_char(self, c: char, s: &mut String)
        ensures
            final(s)@ == self.spec_push_char(old(s)@, c),
    {
        match self {
            Language::English => {
                crate::text::push_char_onto(s, c);
            },
            Language::Greek => {
                let mut v = chars_of_str(s.as_str());
                push_gr_char(c, &mut v);
                *s = string_from_chars(&v);
            },
        }
    }

    /// Converts a whole typed line into the language's script.
    pub fn transliterate(self, input: &str) -> (r: String)
        ensures
            r@ == self.spec_transliterate(input@),
    {
        let n = input.unicode_len();
        let mut v: Vec<char> = Vec::new();
        let mut i: usize = 0;
        while i < n
            invariant
                0 <= i <= n,
                n == input@.len(),
                v@ == self.spec_transliterate(input@.take(i as int)),
            decreases n - i,
        {
            let c = input.get_char(i);
            proof {
                assert(input@.take(i + 1).drop_last() =~= input@.take(i as int));
                assert(input@.take(i + 1).last() == input@[i as int]);
            }
            match self {
                Language::English => {
                    v.push(c);
                },
                Language::Greek => {
                    push_gr_char(c, &mut v);
                },
            }
            i += 1;
        }
        proof {
            assert(input@.take(n as int) =~= input@);
        }
        string_from_chars(&v)
    }

    pub open spec fn spec_from_str(s: Seq<char>) -> Option<Language> {
        if s == seq!['g', 'r'] {
            Some(Language::Greek)
        } else if s == seq!['e', 'n'] {
            Some(Language::English)
        } else {
            None
        }
    }

    /// Parses the two-letter tag; any other text is rejected.
    pub fn from_abbreviation(s: &str) -> (r: Option<Language>)
        ensures
            r == Language::spec_from_str(s@),
    {
        let n = s.unicode_len();
        if n == 2 {
            let c0 = s.get_char(0);
            let c1 = s.get_char(1);
            if c0 == 'g' && c1 == 'r' {
                proof {
                    assert(s@ =~= seq!['g', 'r']);
                }
                Some(Language::Greek)
            } else if c0 == 'e' && c1 == 'n' {
                proof {
                    assert(s@ =~= seq!['e', 'n']);
                    assert(s@ != seq!['g', 'r']);
                }
                Some(Language::English)
            } else {
                proof {
                    assert(s@ != seq!['g', 'r']);
                    assert(s@ != seq!['e', 'n']);
                }
                None
            }
        } else {
            proof {
                assert(s@ != seq!['g', 'r']);
                assert(s@ != seq!['e', 'n']);
            }
            None
        }
    }
}

/// Latin key to Greek letter, in four shapes: plain, after an acute
/// marker (`;`), after a diaeresis marker (`:`), and after both.
pub open spec fn gr_table(c: char) -> (char, char, char, char) {
    match c {
        'a' => ('\u{3b1}', '\u{3ac}', '\u{3b1}', '\u{3b1}'),
        'b' => ('\u{3b2}', '\u{3b2}', '\u{3b2}', '\u{3b2}'),
        'g' => ('\u{3b3}', '\u{3b3}', '\u{3b3}', '\u{3b3}'),
        'd' => ('\u{3b4}', '\u{3b4}', '\u{3b4}', '\u{3b4}'),
        'e' => ('\u{3b5}', '\u{3ad}', '\u{3b5}', '\u{3b5}'),
        'z' => ('\u{3b6}', '\u{3b6}', '\u{3b6}', '\u{3b6}'),
        'h' => ('\u{3b7}', '\u{3ae}', '\u{3b7}', '\u{3b7}'),
        'u' => ('\u{3b8}', '\u{3b8}', '\u{3b8}', '\u{3b8}'),
        'i' => ('\u{3b9}', '\u{3af}', '\u{3ca}', '\u{390}'),
        'k' => ('\u{3ba}', '\u{3ba}', '\u{3ba}', '\u{3ba}'),
        'l' => ('\u{3bb}', '\u{3bb}', '\u{3bb}', '\u{3bb}'),
        'm' => ('\u{3bc}', '\u{3bc}', '\u{3bc}', '\u{3bc}'),
        'n' => ('\u{3bd}', '\u{3bd}', '\u{3bd}', '\u{3bd}'),
        'j' => ('\u{3be}', '\u{3be}', '\u{3be}', '\u{3be}'),
        'o' => ('\u{3bf}', '\u{3cc}', '\u{3bf}', '\u{3bf}'),
        'p' => ('\u{3c0}', '\u{3c0}', '\u{3c0}', '\u{3c0}'),
        'r' => ('\u{3c1}', '\u{3c1}', '\u{3c1}', '\u{3c1}'),
        's' => ('\u{3c3}', '\u{3c3}', '\u{3c3}', '\u{3c3}'),
        't' => ('\u{3c4}', '\u{3c4}', '\u{3c4}', '\u{3c4}'),
        'y' => ('\u{3c5}', '\u{3cd}', '\u{3c5}', '\u{3c5}'),
        'f' => ('\u{3c6}', '\u{3c6}', '\u{3c6}', '\u{3c6}'),
        'x' => ('\u{3c7}', '\u{3c7}', '\u{3c7}', '\u{3c7}'),
        'c' => ('\u{3c8}', '\u{3c8}', '\u{3c8}', '\u{3c8}'),
        'v' => ('\u{3c9}', '\u{3ce}', '\u{3c9}', '\u{3c9}'),
        'w' => ('\u{3c2}', '\u{3c2}', '\u{3c2}', '\u{3c2}'),
        'q' => (';', ';', ';', ';'),
        'A' => ('\u{391}', '\u{386}', '\u{391}', '\u{391}'),
        'B' => ('\u{392}', '\u{392}', '\u{392}', '\u{392}'),
        'G' => ('\u{393}', '\u{393}', '\u{393}', '\u{393}'),
        'D' => ('\u{394}', '\u{394}', '\u{394}', '\u{394}'),
        'E' => ('\u{395}', '\u{388}', '\u{395}', '\u{395}'),
        'Z' => ('\u{396}', '\u{396}', '\u{396}', '\u{396}'),
        'H' => ('\u{397}', '\u{389}', '\u{397}', '\u{397}'),
        'U' => ('\u{398}', '\u{398}', '\u{398}', '\u{398}'),
        'I' => ('\u{399}', '\u{38a}', '\u{3aa}', '\u{399}'),
        'K' => ('\u{39a}', '\u{39a}', '\u{39a}', '\u{39a}'),
        'L' => ('\u{39b}', '\u{39b}', '\u{39b}', '\u{39b}'),
        'M' => ('\u{39c}', '\u{39c}', '\u{39c}', '\u{39c}'),
        'N' => ('\u{39d}', '\u{39d}', '\u{39d}', '\u{39d}'),
        'J' => ('\u{39e}', '\u{39e}', '\u{39e}', '\u{39e}'),
        'O' => ('\u{39f}', '\u{38c}', '\u{39f}', '\u{39f}'),
        'P' => ('\u{3a0}', '\u{3a0}', '\u{3a0}', '\u{3a0}'),
        'R' => ('\u{3a1}', '\u{3a1}', '\u{3a1}', '\u{3a1}'),
        'S' => ('\u{3a3}', '\u{3a3}', '\u{3a3}', '\u{3a3}'),
        'T' => ('\u{3a4}', '\u{3a4}', '\u{3a4}', '\u{3a4}'),
        'Y' => ('\u{3a5}', '\u{38e}', '\u{3a5}', '\u{3a5}'),
        'F' => ('\u{3a6}', '\u{3a6}', '\u{3a6}', '\u{3a6}'),
        'X' => ('\u{3a7}', '\u{3a7}', '\u{3a7}', '\u{3a7}'),
        'C' => ('\u{3a8}', '\u{3a8}', '\u{3a8}', '\u{3a8}'),
        'V' => ('\u{3a9}', '\u{38f}', '\u{3a9}', '\u{3a9}'),
        'Q' => (':', ':', ':', ':'),
        _ => (c, c, c, c),
    }
}

/// Which accent markers close the buffer: acute (`;`), diaeresis
/// (`:`), or both in either order.
pub open spec fn gr_mods(s: Seq<char>) -> (bool, bool) {
    if s.len() >= 2 && s[s.len() - 2] == ':' && s[s.len() - 1] == ';' {
        (true, true)
    } else if s.len() >= 2 && s[s.len() - 2] == ';' && s[s.len() - 1] == ':' {
        (true, true)
    } else if s.len() >= 1 && s[s.len() - 1] == ':' {
        (false, true)
    } else if s.len() >= 1 && s[s.len() - 1] == ';' {
        (true, false)
    } else {
        (false, false)
    }
}

/// One typed key on the Greek keyboard: pending accent markers at the
/// end of the buffer are replaced by the accented letter, when the key
/// has an accented shape; otherwise the plain letter is appended.
pub open spec fn spec_push_gr_char(s: Seq<char>, c: char) -> Seq<char> {
    let shapes = gr_table(c);
    let mods = gr_mods(s);
    if mods.0 && mods.1 && shapes.0 != shapes.3 {
        s.take(s.len() - 2).push(shapes.3)
    } else if mods.0 && shapes.0 != shapes.1 {
        s.take(s.len() - 1).push(shapes.1)
    } else if mods.1 && shapes.0 != shapes.2 {
        s.take(s.len() - 1).push(shapes.2)
    } else {
        s.push(shapes.0)
    }
}

/// The four shapes of one typed key.
fn gr_table_exec(c: char) -> (r: (char, char, char, char))
    ensures
        r == gr_table(c),
{
    match c {
        'a' => ('\u{3b1}', '\u{3ac}', '\u{3b1}', '\u{3b1}'),
        'b' => ('\u{3b2}', '\u{3b2}', '\u{3b2}', '\u{3b2}'),
        'g' => ('\u{3b3}', '\u{3b3}', '\u{3b3}', '\u{3b3}'),
        'd' => ('\u{3b4}', '\u{3b4}', '\u{3b4}', '\u{3b4}'),
        'e' => ('\u{3b5}', '\u{3ad}', '\u{3b5}', '\u{3b5}'),
        'z' => ('\u{3b6}', '\u{3b6}', '\u{3b6}', '\u{3b6}'),
        'h' => ('\u{3b7}', '\u{3ae}', '\u{3b7}', '\u{3b7}'),
        'u' => ('\u{3b8}', '\u{3b8}', '\u{3b8}', '\u{3b8}'),
        'i' => ('\u{3b9}', '\u{3af}', '\u{3ca}', '\u{390}'),
        'k' => ('\u{3ba}', '\u{3ba}', '\u{3ba}', '\u{3ba}'),
        'l' => ('\u{3bb}', '\u{3bb}', '\u{3bb}', '\u{3bb}'),
        'm' => ('\u{3bc}', '\u{3bc}', '\u{3bc}', '\u{3bc}'),
        'n' => ('\u{3bd}', '\u{3bd}', '\u{3bd}', '\u{3bd}'),
        'j' => ('\u{3be}', '\u{3be}', '\u{3be}', '\u{3be}'),
        'o' => ('\u{3bf}', '\u{3cc}', '\u{3bf}', '\u{3bf}'),
        'p' => ('\u{3c0}', '\u{3c0}', '\u{3c0}', '\u{3c0}'),
        'r' => ('\u{3c1}', '\u{3c1}', '\u{3c1}', '\u{3c1}'),
        's' => ('\u{3c3}', '\u{3c3}', '\u{3c3}', '\u{3c3}'),
        't' => ('\u{3c4}', '\u{3c4}', '\u{3c4}', '\u{3c4}'),
        'y' => ('\u{3c5}', '\u{3cd}', '\u{3c5}', '\u{3c5}'),
        'f' => ('\u{3c6}', '\u{3c6}', '\u{3c6}', '\u{3c6}'),
        'x' => ('\u{3c7}', '\u{3c7}', '\u{3c7}', '\u{3c7}'),
        'c' => ('\u{3c8}', '\u{3c8}', '\u{3c8}', '\u{3c8}'),
        'v' => ('\u{3c9}', '\u{3ce}', '\u{3c9}', '\u{3c9}'),
        'w' => ('\u{3c2}', '\u{3c2}', '\u{3c2}', '\u{3c2}'),
        'q' => (';', ';', ';', ';'),
        'A' => ('\u{391}', '\u{386}', '\u{391}', '\u{391}'),
        'B' => ('\u{392}', '\u{392}', '\u{392}', '\u{392}'),
        'G' => ('\u{393}', '\u{393}', '\u{393}', '\u{393}'),
        'D' => ('\u{394}', '\u{394}', '\u{394}', '\u{394}'),
        'E' => ('\u{395}', '\u{388}', '\u{395}', '\u{395}'),
        'Z' => ('\u{396}', '\u{396}', '\u{396}', '\u{396}'),
        'H' => ('\u{397}', '\u{389}', '\u{397}', '\u{397}'),
        'U' => ('\u{398}', '\u{398}', '\u{398}', '\u{398}'),
        'I' => ('\u{399}', '\u{38a}', '\u{3aa}', '\u{399}'),
        'K' => ('\u{39a}', '\u{39a}', '\u{39a}', '\u{39a}'),
        'L' => ('\u{39b}', '\u{39b}', '\u{39b}', '\u{39b}'),
        'M' => ('\u{39c}', '\u{39c}', '\u{39c}', '\u{39c}'),
        'N' => ('\u{39d}', '\u{39d}', '\u{39d}', '\u{39d}'),
        'J' => ('\u{39e}', '\u{39e}', '\u{39e}', '\u{39e}'),
        'O' => ('\u{39f}', '\u{38c}', '\u{39f}', '\u{39f}'),
        'P' => ('\u{3a0}', '\u{3a0}', '\u{3a0}', '\u{3a0}'),
        'R' => ('\u{3a1}', '\u{3a1}', '\u{3a1}', '\u{3a1}'),
        'S' => ('\u{3a3}', '\u{3a3}', '\u{3a3}', '\u{3a3}'),
        'T' => ('\u{3a4}', '\u{3a4}', '\u{3a4}', '\u{3a4}'),
        'Y' => ('\u{3a5}', '\u{38e}', '\u{3a5}', '\u{3a5}'),
        'F' => ('\u{3a6}', '\u{3a6}', '\u{3a6}', '\u{3a6}'),
        'X' => ('\u{3a7}', '\u{3a7}', '\u{3a7}', '\u{3a7}'),
        'C' => ('\u{3a8}', '\u{3a8}', '\u{3a8}', '\u{3a8}'),
        'V' => ('\u{3a9}', '\u{38f}', '\u{3a9}', '\u{3a9}'),
        'Q' => (':', ':', ':', ':'),
        _ => (c, c, c, c),
    }
}

/// One typed key on the Greek keyboard, applied to a character buffer.
pub fn push_gr_char(c: char, s: &mut Vec<char>)
    ensures
        final(s)@ == spec_push_gr_char(old(s)@, c),
{
    let shapes = gr_table_exec(c);
    let len = s.len();
    let mut semi = false;
    let mut colon = false;
    if len >= 2 && s[len - 2] == ':' && s[len - 1] == ';' {
        semi = true;
        colon = true;
    } else if len >= 2 && s[len - 2] == ';' && s[len - 1] == ':' {
        semi = true;
        colon = true;
    } else if len >= 1 && s[len - 1] == ':' {
        colon = true;
    } else if len >= 1 && s[len - 1] == ';' {
        semi = true;
    }
    proof {
        assert((semi, colon) == gr_mods(s@));
    }
    if semi && colon && shapes.0 != shapes.3 {
        s.truncate(len - 2);
        s.push(shapes.3);
        proof {
            assert(final(s)@ =~= spec_push_gr_char(old(s)@, c));
        }
    } else if semi && shapes.0 != shapes.1 {
        s.truncate(len - 1);
        s.push(shapes.1);
        proof {
            assert(final(s)@ =~= spec_push_gr_char(old(s)@, c));
        }
    } else if colon && shapes.0 != shapes.2 {
        s.truncate(len - 1);
        s.push(shapes.2);
        proof {
            assert(final(s)@ =~= spec_push_gr_char(old(s)@, c));
        }
    } else {
        s.push(shapes.0);
    }
}

} // verus!
