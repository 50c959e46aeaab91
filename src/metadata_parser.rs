//! Sequence metadata: a line-oriented log of `SEQ <frame_period>` and
//! `PIC <offset> <temporal_reference> [flags...]` records.

use vstd::prelude::*;

use crate::ascii::{
    is_digit, is_digit_byte, is_text_space, is_text_space_byte, LINE_FEED, PLUS, UPPER_C,
    UPPER_E, UPPER_I, UPPER_P, UPPER_Q, UPPER_S, DIGIT_ZERO,
};
use crate::flag::{classify, word_views, FrameMode};
use crate::pgm_parser::{digits_value, lemma_digits_value_grows};
use vstd::seq_lib::to_multiset_build;

verus! {

/// Frame period that a `SEQ` record without one stands for, in ticks.
pub const DEFAULT_FRAME_PERIOD: usize = 1_080_000;

/// Ticks of the system clock per second.
pub const SYSTEM_CLOCK_HZ: u64 = 27_000_000;

/// Why a metadata log was refused.
#[derive(Debug, Clone, Copy, PartialEq, Eq, Structural)]
pub enum MetaError {
    /// The log could not be read.
    UnreadableFile,
    /// A `PIC` record came before any `SEQ` record.
    MissingSequenceHeader,
    /// A record lacks a field, or a numeric field is not a number.
    MalformedRecord,
}

/// One picture of the sequence.
#[derive(Debug, Clone, Copy, PartialEq, Eq, Structural)]
pub struct Picture {
    /// Nominal display time, in milliseconds.
    pub duration_ms: u64,
    pub picture_type: FrameMode,
    /// Frame index: the sequence's base plus the temporal reference.
    pub id: usize,
}

/// The lines of `s`, split at line feeds; the last may be empty.
pub open spec fn split_lines(s: Seq<u8>) -> Seq<Seq<u8>>
    decreases s.len(),
{
    if s.len() == 0 {
        seq![Seq::empty()]
    } else {
        let ls = split_lines(s.drop_last());
        if s.last() == LINE_FEED {
            ls.push(Seq::empty())
        } else {
            ls.update(ls.len() - 1, ls.last().push(s.last()))
        }
    }
}

/// The words of `s`: its maximal runs of bytes that are not white space.
pub open spec fn words(s: Seq<u8>) -> Seq<Seq<u8>>
    decreases s.len(),
{
    if s.len() == 0 {
        Seq::empty()
    } else if is_text_space(s.last()) {
        words(s.drop_last())
    } else {
        let ws = words(s.drop_last());
        if s.len() >= 2 && !is_text_space(s[s.len() - 2]) {
            ws.update(ws.len() - 1, ws.last().push(s.last()))
        } else {
            ws.push(seq![s.last()])
        }
    }
}

/// The record tag `SEQ`.
pub open spec fn seq_tag() -> Seq<u8> {
    seq![UPPER_S, UPPER_E, UPPER_Q]
}

/// The record tag `PIC`.
pub open spec fn pic_tag() -> Seq<u8> {
    seq![UPPER_P, UPPER_I, UPPER_C]
}

pub open spec fn starts_with(s: Seq<u8>, prefix: Seq<u8>) -> bool {
    prefix.len() <= s.len() && s.take(prefix.len() as int) == prefix
}

/// The unsigned number that a word spells: an optional `+`, then one or more
/// decimal digits, of a value that fits in `usize`.
pub open spec fn parse_number(w: Seq<u8>) -> Option<nat> {
    let start: nat = if w.len() > 0 && w[0] == PLUS {
        1
    } else {
        0
    };
    if start < w.len() && (forall|q: int| start <= q < w.len() ==> is_digit(#[trigger] w[q]))
        && digits_value(w, start, w.len()) <= usize::MAX {
        Some(digits_value(w, start, w.len()))
    } else {
        None
    }
}

/// The nominal duration of a frame of the given period, in milliseconds:
/// `27,000,000 / period` rounded to the nearest, halves up; a period of zero
/// gives the largest duration.
pub open spec fn duration_ms(period: nat) -> u64 {
    if period == 0 {
        u64::MAX
    } else {
        ((2 * SYSTEM_CLOCK_HZ as int + period) / (2 * period as int)) as u64
    }
}

/// What the parser knows after some lines: the active frame period, the
/// number of pictures before the current sequence, and the pictures so far.
pub struct ParseState {
    pub period: Option<nat>,
    pub base: nat,
    pub pictures: Seq<Picture>,
}

/// The state before any line.
pub open spec fn initial_state() -> ParseState {
    ParseState { period: None, base: 0, pictures: Seq::empty() }
}

/// The effect of one line. `SEQ` starts a sequence: its pictures count from
/// the number parsed so far. `PIC` adds a picture. Other lines are ignored.
pub open spec fn parse_line(st: ParseState, line: Seq<u8>) -> Result<ParseState, MetaError> {
    let ws = words(line);
    if starts_with(line, seq_tag()) {
        let period = if ws.len() > 1 {
            parse_number(ws[1])
        } else {
            Some(DEFAULT_FRAME_PERIOD as nat)
        };
        match period {
            None => Err(MetaError::MalformedRecord),
            Some(p) => Ok(ParseState { period: Some(p), base: st.pictures.len(), pictures: st.pictures }),
        }
    } else if starts_with(line, pic_tag()) {
        if ws.len() < 3 || parse_number(ws[1]) is None || parse_number(ws[2]) is None {
            Err(MetaError::MalformedRecord)
        } else if st.period is None {
            Err(MetaError::MissingSequenceHeader)
        } else if st.base + parse_number(ws[2]).unwrap() > usize::MAX {
            Err(MetaError::MalformedRecord)
        } else {
            let pic = Picture {
                duration_ms: duration_ms(st.period.unwrap()),
                picture_type: classify(ws.subrange(3, ws.len() as int)),
                id: (st.base + parse_number(ws[2]).unwrap()) as usize,
            };
            Ok(ParseState { period: st.period, base: st.base, pictures: st.pictures.push(pic) })
        }
    } else {
        Ok(st)
    }
}

/// The state after a list of lines, or the first error.
pub open spec fn parse_lines(lines: Seq<Seq<u8>>) -> Result<ParseState, MetaError>
    decreases lines.len(),
{
    if lines.len() == 0 {
        Ok(initial_state())
    } else {
        match parse_lines(lines.drop_last()) {
            Ok(st) => parse_line(st, lines.last()),
            Err(e) => Err(e),
        }
    }
}

/// `sorted` with `p` put after every picture whose id is at most `p`'s.
pub open spec fn insert_by_id(sorted: Seq<Picture>, p: Picture) -> Seq<Picture>
    decreases sorted.len(),
{
    if sorted.len() == 0 || sorted.last().id <= p.id {
        sorted.push(p)
    } else {
        insert_by_id(sorted.drop_last(), p).push(sorted.last())
    }
}

/// The pictures ordered by id, those with equal ids in their first order.
pub open spec fn sort_by_id(s: Seq<Picture>) -> Seq<Picture>
    decreases s.len(),
{
    if s.len() == 0 {
        s
    } else {
        insert_by_id(sort_by_id(s.drop_last()), s.last())
    }
}

pub open spec fn sorted_by_id(s: Seq<Picture>) -> bool {
    forall|i: int, j: int| 0 <= i <= j < s.len() ==> s[i].id <= s[j].id
}

/// What parsing a whole log gives: its pictures ordered by id, or the first
/// error.
pub open spec fn meta_result(log: Seq<u8>) -> Result<Seq<Picture>, MetaError> {
    match parse_lines(split_lines(log)) {
        Ok(st) => Ok(sort_by_id(st.pictures)),
        Err(e) => Err(e),
    }
}

/// A nonempty text that ends in a byte other than white space has a word.
proof fn lemma_words_nonempty(s: Seq<u8>)
    requires
        s.len() > 0,
        !is_text_space(s.last()),
    ensures
        words(s).len() > 0,
    decreases s.len(),
{
    if s.len() >= 2 && !is_text_space(s[s.len() - 2]) {
        lemma_words_nonempty(s.drop_last());
    }
}

/// The words of `line`.
pub fn split_words(line: &[u8]) -> (ws: Vec<Vec<u8>>)
    ensures
        word_views(ws@) == words(line@),
{
    let mut ws: Vec<Vec<u8>> = Vec::new();
    let mut i: usize = 0;
    while i < line.len()
        invariant
            i <= line@.len(),
            word_views(ws@) == words(line@.take(i as int)),
        decreases line@.len() - i,
    {
        let b = line[i];
        let ghost s = line@.take(i + 1);
        assert(s.drop_last() =~= line@.take(i as int));
        if is_text_space_byte(b) {
        } else if i > 0 && !is_text_space_byte(line[i - 1]) {
            proof {
                lemma_words_nonempty(line@.take(i as int));
            }
            let mut last = ws.pop().unwrap();
            last.push(b);
            ws.push(last);
            assert(word_views(ws@) =~= words(s));
        } else {
            let mut w: Vec<u8> = Vec::new();
            w.push(b);
            ws.push(w);
            assert(word_views(ws@) =~= words(s));
        }
        i = i + 1;
    }
    assert(line@.take(i as int) =~= line@);
    ws
}

/// The unsigned number that the word `w` spells.
pub fn parse_number_exec(w: &[u8]) -> (r: Option<usize>)
    ensures
        match parse_number(w@) {
            Some(v) => r == Some(v as usize),
            None => r.is_none(),
        },
{
    let start: usize = if w.len() > 0 && w[0] == PLUS {
        1
    } else {
        0
    };
    if start >= w.len() {
        return None;
    }
    let mut i = start;
    let mut value: usize = 0;
    while i < w.len()
        invariant
            start <= i <= w@.len(),
            start == (if w@.len() > 0 && w@[0] == PLUS {
                1nat
            } else {
                0nat
            }),
            forall|q: int| start <= q < i ==> is_digit(#[trigger] w@[q]),
            value == digits_value(w@, start as nat, i as nat),
        decreases w@.len() - i,
    {
        if !is_digit_byte(w[i]) {
            return None;
        }
        let d = (w[i] - DIGIT_ZERO) as usize;
        if value > (usize::MAX - d) / 10 {
            proof {
                if forall|q: int| start <= q < w@.len() ==> is_digit(#[trigger] w@[q]) {
                    lemma_digits_value_grows(w@, start as nat, (i + 1) as nat, w@.len());
                }
            }
            return None;
        }
        value = value * 10 + d;
        i = i + 1;
    }
    Some(value)
}

/// The nominal duration of a frame of the given period, in milliseconds.
pub fn duration_ms_exec(period: usize) -> (d: u64)
    ensures
        d == duration_ms(period as nat),
{
    if period == 0 {
        u64::MAX
    } else {
        let p = period as u128;
        let d = (2 * (SYSTEM_CLOCK_HZ as u128) + p) / (2 * p);
        assert(d <= 2 * SYSTEM_CLOCK_HZ + 1) by (nonlinear_arith)
            requires
                d == (2 * SYSTEM_CLOCK_HZ + p) / (2 * p),
                p >= 1,
        ;
        d as u64
    }
}

/// The parser's running state.
struct Parser {
    period: Option<usize>,
    base: usize,
    pictures: Vec<Picture>,
}

impl Parser {
    spec fn state(&self) -> ParseState {
        ParseState {
            period: match self.period {
                Some(p) => Some(p as nat),
                None => None,
            },
            base: self.base as nat,
            pictures: self.pictures@,
        }
    }

    /// Applies one line.
    fn step(&mut self, line: &[u8]) -> (r: Result<(), MetaError>)
        ensures
            match parse_line(old(self).state(), line@) {
                Ok(st) => r is Ok && final(self).state() == st,
                Err(e) => r == Err::<(), MetaError>(e),
            },
    {
        let ws = split_words(line);
        let n = ws.len();
        let is_seq = line.len() >= 3 && line[0] == UPPER_S && line[1] == UPPER_E && line[2]
            == UPPER_Q;
        let is_pic = line.len() >= 3 && line[0] == UPPER_P && line[1] == UPPER_I && line[2]
            == UPPER_C;
        proof {
            if line@.len() >= 3 {
                assert(is_seq ==> line@.take(3) =~= seq_tag());
                assert(is_pic ==> line@.take(3) =~= pic_tag());
                assert(line@.take(3)[0] == line@[0]);
                assert(line@.take(3)[1] == line@[1]);
                assert(line@.take(3)[2] == line@[2]);
            }
            assert(is_seq == starts_with(line@, seq_tag()));
            assert(is_pic == starts_with(line@, pic_tag()));
            assert(n > 1 ==> ws@[1]@ == words(line@)[1]);
            assert(n > 2 ==> ws@[2]@ == words(line@)[2]);
        }
        if is_seq {
            let period = if n > 1 {
                parse_number_exec(ws[1].as_slice())
            } else {
                Some(DEFAULT_FRAME_PERIOD)
            };
            match period {
                None => Err(MetaError::MalformedRecord),
                Some(p) => {
                    self.period = Some(p);
                    self.base = self.pictures.len();
                    Ok(())
                },
            }
        } else if is_pic {
            if n < 3 {
                return Err(MetaError::MalformedRecord);
            }
            let offset = parse_number_exec(ws[1].as_slice());
            let temporal_reference = parse_number_exec(ws[2].as_slice());
            if offset.is_none() {
                return Err(MetaError::MalformedRecord);
            }
            let tr = match temporal_reference {
                Some(tr) => tr,
                None => return Err(MetaError::MalformedRecord),
            };
            let period = match self.period {
                Some(p) => p,
                None => return Err(MetaError::MissingSequenceHeader),
            };
            if tr > usize::MAX - self.base {
                return Err(MetaError::MalformedRecord);
            }
            let flags = &ws.as_slice()[3..n];
            assert(word_views(flags@) =~= words(line@).subrange(3, n as int));
            let pic = Picture {
                duration_ms: duration_ms_exec(period),
                picture_type: FrameMode::from_words(flags),
                id: self.base + tr,
            };
            self.pictures.push(pic);
            Ok(())
        } else {
            Ok(())
        }
    }
}

/// Puts `p` into `out` after every picture whose id is at most `p`'s.
fn insert_by_id_exec(out: &mut Vec<Picture>, p: Picture)
    ensures
        final(out)@ == insert_by_id(old(out)@, p),
{
    let ghost s = out@;
    let n = out.len();
    out.push(p);
    let mut j = n;
    assert(s.take(n as int) =~= s);
    assert(s.skip(n as int) =~= Seq::<Picture>::empty());
    while j > 0 && out[j - 1].id > p.id
        invariant
            j <= n,
            n == s.len(),
            out@.len() == n + 1,
            forall|q: int| 0 <= q < j ==> #[trigger] out@[q] == s[q],
            forall|q: int| j < q <= n ==> #[trigger] out@[q] == s[q - 1],
            insert_by_id(s, p) == insert_by_id(s.take(j as int), p) + s.skip(j as int),
        decreases j,
    {
        let q = out[j - 1];
        out[j] = q;
        proof {
            let t = s.take(j as int);
            assert(t.drop_last() =~= s.take(j - 1));
            assert(t.last() == s[j - 1]);
            assert(insert_by_id(t, p) == insert_by_id(s.take(j - 1), p).push(s[j - 1]));
            assert(insert_by_id(s.take(j - 1), p).push(s[j - 1]) + s.skip(j as int) =~= insert_by_id(
                s.take(j - 1),
                p,
            ) + s.skip(j - 1));
        }
        j = j - 1;
    }
    out[j] = p;
    proof {
        assert(insert_by_id(s.take(j as int), p) == s.take(j as int).push(p));
        assert(out@ =~= s.take(j as int).push(p) + s.skip(j as int));
    }
}

/// The pictures ordered by id, those with equal ids in their first order.
pub fn sort_pictures(v: &Vec<Picture>) -> (r: Vec<Picture>)
    ensures
        r@ == sort_by_id(v@),
{
    let mut out: Vec<Picture> = Vec::new();
    let mut k: usize = 0;
    while k < v.len()
        invariant
            k <= v@.len(),
            out@ == sort_by_id(v@.take(k as int)),
        decreases v@.len() - k,
    {
        insert_by_id_exec(&mut out, v[k]);
        assert(v@.take(k + 1).drop_last() =~= v@.take(k as int));
        k = k + 1;
    }
    assert(v@.take(k as int) =~= v@);
    out
}

/// Parses a metadata log into its pictures, ordered by id; pictures with
/// equal ids keep the order in which they were parsed. A `SEQ` line resets
/// the base id to the number of pictures parsed so far and sets the frame
/// period (`1080000` ticks where it gives none); a `PIC` line adds the picture
/// `base + temporal_reference`, whose duration is `27,000,000 / period`
/// milliseconds, rounded, and whose mode its flag words select. The first
/// `PIC` before any `SEQ`, or the first record with a missing or
/// non-numeric field, fails the whole log.
pub fn meta_decode(log: &[u8]) -> (r: Result<Vec<Picture>, MetaError>)
    ensures
        match meta_result(log@) {
            Ok(ps) => r is Ok && r.unwrap()@ == ps && sorted_by_id(ps) && ps.to_multiset()
                == parse_lines(split_lines(log@)).unwrap().pictures.to_multiset(),
            Err(e) => r == Err::<Vec<Picture>, MetaError>(e),
        },
{
    let mut parser = Parser { period: None, base: 0, pictures: Vec::new() };
    let mut failed: Option<MetaError> = None;
    let ghost mut done: Seq<Seq<u8>> = Seq::empty();
    let mut start: usize = 0;
    let mut i: usize = 0;
    assert(log@.take(0) =~= Seq::<u8>::empty());
    assert(log@.subrange(0, 0) =~= Seq::<u8>::empty());
    assert(split_lines(log@.take(0)) =~= done.push(log@.subrange(0, 0)));
    while i < log.len()
        invariant
            start <= i <= log@.len(),
            split_lines(log@.take(i as int)) == done.push(log@.subrange(start as int, i as int)),
            match parse_lines(done) {
                Ok(st) => failed.is_none() && parser.state() == st,
                Err(e) => failed == Some(e),
            },
        decreases log@.len() - i,
    {
        assert(log@.take(i + 1).drop_last() =~= log@.take(i as int));
        if log[i] == LINE_FEED {
            let line = &log[start..i];
            assert(done.push(line@).drop_last() =~= done);
            if failed.is_none() {
                match parser.step(line) {
                    Ok(()) => {},
                    Err(e) => {
                        failed = Some(e);
                    },
                }
            }
            proof {
                done = done.push(line@);
            }
            start = i + 1;
            assert(log@.subrange(start as int, (i + 1) as int) =~= Seq::<u8>::empty());
        } else {
            assert(log@.subrange(start as int, (i + 1) as int) =~= log@.subrange(
                start as int,
                i as int,
            ).push(log[i as int]));
        }
        i = i + 1;
    }
    assert(log@.take(i as int) =~= log@);
    let line = &log[start..i];
    assert(done.push(line@).drop_last() =~= done);
    if let Some(e) = failed {
        return Err(e);
    }
    match parser.step(line) {
        Ok(()) => {
            proof {
                lemma_sort_by_id_sorted(parser.pictures@);
                lemma_sort_by_id_permutes(parser.pictures@);
            }
            Ok(sort_pictures(&parser.pictures))
        },
        Err(e) => Err(e),
    }
}

/// Inserting keeps every id at most a bound that held before.
proof fn lemma_insert_by_id_bound(s: Seq<Picture>, p: Picture, bound: nat)
    requires
        forall|i: int| 0 <= i < s.len() ==> #[trigger] s[i].id <= bound,
        p.id <= bound,
    ensures
        forall|i: int|
            0 <= i < insert_by_id(s, p).len() ==> #[trigger] insert_by_id(s, p)[i].id <= bound,
    decreases s.len(),
{
    if s.len() > 0 && s.last().id > p.id {
        lemma_insert_by_id_bound(s.drop_last(), p, bound);
    }
}

/// Inserting into a sorted list keeps it sorted.
proof fn lemma_insert_by_id_sorted(s: Seq<Picture>, p: Picture)
    requires
        sorted_by_id(s),
    ensures
        sorted_by_id(insert_by_id(s, p)),
    decreases s.len(),
{
    if s.len() > 0 && s.last().id > p.id {
        let t = s.drop_last();
        lemma_insert_by_id_sorted(t, p);
        lemma_insert_by_id_bound(t, p, s.last().id as nat);
    }
}

/// The pictures come out of `sort_by_id` in ascending order of id.
pub proof fn lemma_sort_by_id_sorted(s: Seq<Picture>)
    ensures
        sorted_by_id(sort_by_id(s)),
    decreases s.len(),
{
    if s.len() > 0 {
        lemma_sort_by_id_sorted(s.drop_last());
        lemma_insert_by_id_sorted(sort_by_id(s.drop_last()), s.last());
    }
}

/// The mode that the flag words of `text` select.
pub fn mode_from_text(text: &[u8]) -> (m: FrameMode)
    ensures
        m == classify(words(text@)),
{
    let ws = split_words(text);
    FrameMode::from_words(ws.as_slice())
}

/// The picture with id `id`; of several, the one that comes last.
pub fn picture_by_id(pictures: &[Picture], id: usize) -> (r: Option<Picture>)
    ensures
        r.is_none() <==> forall|i: int| 0 <= i < pictures@.len() ==> #[trigger] pictures@[i].id != id,
        r.is_some() ==> exists|i: int|
            0 <= i < pictures@.len() && #[trigger] pictures@[i] == r.unwrap() && pictures@[i].id == id
                && forall|j: int| i < j < pictures@.len() ==> #[trigger] pictures@[j].id != id,
{
    let mut i = pictures.len();
    while i > 0
        invariant
            i <= pictures@.len(),
            forall|j: int| i <= j < pictures@.len() ==> #[trigger] pictures@[j].id != id,
        decreases i,
    {
        if pictures[i - 1].id == id {
            let p = pictures[i - 1];
            assert(pictures@[i - 1] == p);
            return Some(p);
        }
        i = i - 1;
    }
    None
}

/// Inserting adds the picture and keeps every other.
proof fn lemma_insert_by_id_permutes(s: Seq<Picture>, p: Picture)
    ensures
        insert_by_id(s, p).to_multiset() == s.to_multiset().insert(p),
    decreases s.len(),
{
    broadcast use vstd::multiset::group_multiset_axioms;

    to_multiset_build(s, p);
    if s.len() > 0 && s.last().id > p.id {
        let t = s.drop_last();
        lemma_insert_by_id_permutes(t, p);
        to_multiset_build(insert_by_id(t, p), s.last());
        to_multiset_build(t, s.last());
        assert(t.push(s.last()) =~= s);
        assert(insert_by_id(s, p).to_multiset() =~= s.to_multiset().insert(p));
    }
}

/// `sort_by_id` reorders the pictures: it keeps each, as often as it comes.
pub proof fn lemma_sort_by_id_permutes(s: Seq<Picture>)
    ensures
        sort_by_id(s).to_multiset() == s.to_multiset(),
    decreases s.len(),
{
    if s.len() > 0 {
        let t = s.drop_last();
        lemma_sort_by_id_permutes(t);
        lemma_insert_by_id_permutes(sort_by_id(t), s.last());
        to_multiset_build(t, s.last());
        assert(t.push(s.last()) =~= s);
    }
}

} // verus!
