//! Frame modes and the flag words that select them.

use vstd::prelude::*;

use crate::ascii::{UPPER_F, UPPER_G, UPPER_O, UPPER_P, UPPER_R, UPPER_T};

verus! {

/// The word `PROG`.
pub open spec fn word_prog() -> Seq<u8> {
    seq![UPPER_P, UPPER_R, UPPER_O, UPPER_G]
}

/// The word `RFF`.
pub open spec fn word_rff() -> Seq<u8> {
    seq![UPPER_R, UPPER_F, UPPER_F]
}

/// The word `TFF`.
pub open spec fn word_tff() -> Seq<u8> {
    seq![UPPER_T, UPPER_F, UPPER_F]
}

/// The contents of a list of words.
pub open spec fn word_views(ws: Seq<Vec<u8>>) -> Seq<Seq<u8>> {
    ws.map_values(|w: Vec<u8>| w@)
}

/// One flag word of a picture record.
#[derive(Debug, Clone, Copy, PartialEq, Eq, Structural)]
pub enum Flag {
    Unrecognised,
    Progressive,
    RepeatFirstField,
    TopFieldFirst,
}

/// How the fields of a frame are laid out in time.
#[allow(non_camel_case_types)]
#[derive(Debug, Clone, Copy, PartialEq, Eq, Structural, Hash)]
pub enum FrameMode {
    /// One progressive frame.
    PROG,
    /// Top field first, and the first field is shown once more.
    RFF_TFF,
    /// Bottom field first, and the first field is shown once more.
    RFF_BFF,
    /// Top field first.
    TFF,
    /// Bottom field first.
    BFF,
}

/// The flag that a single word stands for.
pub open spec fn flag_of(w: Seq<u8>) -> Flag {
    if w == word_prog() {
        Flag::Progressive
    } else if w == word_rff() {
        Flag::RepeatFirstField
    } else if w == word_tff() {
        Flag::TopFieldFirst
    } else {
        Flag::Unrecognised
    }
}

/// Some word of `words` stands for `f`.
pub open spec fn has_flag(words: Seq<Seq<u8>>, f: Flag) -> bool {
    exists|i: int| 0 <= i < words.len() && flag_of(#[trigger] words[i]) == f
}

/// The mode that a list of flag words selects. Repeat-first-field wins over
/// everything; a list with no recognised word selects bottom field first.
pub open spec fn classify(words: Seq<Seq<u8>>) -> FrameMode {
    let rff = has_flag(words, Flag::RepeatFirstField);
    let tff = has_flag(words, Flag::TopFieldFirst);
    if rff && tff {
        FrameMode::RFF_TFF
    } else if rff {
        FrameMode::RFF_BFF
    } else if tff {
        FrameMode::TFF
    } else if has_flag(words, Flag::Progressive) {
        FrameMode::PROG
    } else {
        FrameMode::BFF
    }
}

impl Flag {
    /// The flag that the word `w` stands for.
    pub fn from_word(w: &[u8]) -> (f: Flag)
        ensures
            f == flag_of(w@),
    {
        let n = w.len();
        if n == 4 && w[0] == UPPER_P && w[1] == UPPER_R && w[2] == UPPER_O && w[3] == UPPER_G {
            assert(w@ =~= word_prog());
            Flag::Progressive
        } else if n == 3 && w[0] == UPPER_R && w[1] == UPPER_F && w[2] == UPPER_F {
            assert(w@ =~= word_rff());
            Flag::RepeatFirstField
        } else if n == 3 && w[0] == UPPER_T && w[1] == UPPER_F && w[2] == UPPER_F {
            assert(w@ =~= word_tff());
            Flag::TopFieldFirst
        } else {
            Flag::Unrecognised
        }
    }
}

impl FrameMode {
    /// The mode that the flag words `words` select.
    pub fn from_words(words: &[Vec<u8>]) -> (m: FrameMode)
        ensures
            m == classify(word_views(words@)),
    {
        let ghost ws = word_views(words@);
        let mut prog = false;
        let mut rff = false;
        let mut tff = false;
        let mut i: usize = 0;
        while i < words.len()
            invariant
                i <= words.len(),
                ws == word_views(words@),
                prog == has_flag(ws.take(i as int), Flag::Progressive),
                rff == has_flag(ws.take(i as int), Flag::RepeatFirstField),
                tff == has_flag(ws.take(i as int), Flag::TopFieldFirst),
            decreases words.len() - i,
        {
            let f = Flag::from_word(words[i].as_slice());
            let ghost prev = ws.take(i as int);
            let ghost next = ws.take(i + 1);
            assert(next =~= prev.push(ws[i as int]));
            assert forall|g: Flag| has_flag(next, g) == (has_flag(prev, g) || flag_of(ws[i as int]) == g) by {
                if has_flag(next, g) {
                    let j = choose|j: int| 0 <= j < next.len() && flag_of(#[trigger] next[j]) == g;
                    if j < i {
                        assert(prev[j] == next[j]);
                    }
                }
                if has_flag(prev, g) {
                    let j = choose|j: int| 0 <= j < prev.len() && flag_of(#[trigger] prev[j]) == g;
                    assert(next[j] == prev[j]);
                }
                if flag_of(ws[i as int]) == g {
                    assert(next[i as int] == ws[i as int]);
                }
            }
            match f {
                Flag::Progressive => prog = true,
                Flag::RepeatFirstField => rff = true,
                Flag::TopFieldFirst => tff = true,
                Flag::Unrecognised => {},
            }
            i = i + 1;
        }
        assert(ws.take(words.len() as int) =~= ws);
        if rff {
            if tff {
                FrameMode::RFF_TFF
            } else {
                FrameMode::RFF_BFF
            }
        } else if tff {
            FrameMode::TFF
        } else if prog {
            FrameMode::PROG
        } else {
            FrameMode::BFF
        }
    }
}

} // verus!
