//! Reading the textual description of a cube.
//!
//! The text is taken line by line. A line is split at white space into
//! tokens, and its first token, which is where the line begins once the
//! white space around it is gone, decides what the line is:
//!
//! - `LUT_3D_SIZE`, followed by the edge length of the cube;
//! - `DOMAIN_MIN` or `DOMAIN_MAX`, followed by three numbers;
//! - `TITLE`, or a line that begins with `#`, which is passed over, as a
//!   line without tokens is;
//! - anything else is a line of data: three numbers, one sample.

use crate::decimal::{digits_end, digits_value, number_of, parse_chars};
use crate::error::{ParseError, ParseFault};
use crate::ieee::ONE;
use crate::lut3d::{grid_fault, Grid, Lut3D, Triplet};
use vstd::prelude::*;
use vstd::string::*;

verus! {

/// The characters of a text, in order.
pub fn chars_of(text: &str) -> (chars: Vec<char>)
    ensures
        chars@ == text@,
{
    let mut chars: Vec<char> = Vec::new();
    for c in it: text.chars()
        invariant
            chars@ == it.seq().take(it.index()),
            it.seq() == text@,
    {
        chars.push(c);
    }
    chars
}

/// Whether a character is white space, as Unicode defines it.
pub open spec fn is_space(c: char) -> bool {
    let u = c as u32;
    ||| 0x09 <= u <= 0x0d
    ||| u == 0x20
    ||| u == 0x85
    ||| u == 0xa0
    ||| u == 0x1680
    ||| 0x2000 <= u <= 0x200a
    ||| u == 0x2028
    ||| u == 0x2029
    ||| u == 0x202f
    ||| u == 0x205f
    ||| u == 0x3000
}

/// The tokens of a line: its longest runs of characters that are no white
/// space, in order.
pub open spec fn tokens(s: Seq<char>) -> Seq<Seq<char>>
    decreases s.len(),
{
    if s.len() == 0 {
        Seq::empty()
    } else {
        let before = tokens(s.drop_last());
        let c = s.last();
        if is_space(c) {
            before
        } else if s.len() >= 2 && !is_space(s[s.len() - 2]) {
            before.update(before.len() - 1, before.last().push(c))
        } else {
            before.push(seq![c])
        }
    }
}

/// The lines of a text: what stands between its line feeds.
pub open spec fn lines(s: Seq<char>) -> Seq<Seq<char>>
    decreases s.len(),
{
    if s.len() == 0 {
        seq![Seq::empty()]
    } else {
        let before = lines(s.drop_last());
        let c = s.last();
        if c == '\n' {
            before.push(Seq::empty())
        } else {
            before.update(before.len() - 1, before.last().push(c))
        }
    }
}

/// Whether `s` begins with `prefix`.
pub open spec fn starts_with(s: Seq<char>, prefix: Seq<char>) -> bool {
    s.len() >= prefix.len() && s.take(prefix.len() as int) == prefix
}

/// The word that the line of the edge length begins with.
pub open spec fn word_size() -> Seq<char> {
    seq!['L', 'U', 'T', '_', '3', 'D', '_', 'S', 'I', 'Z', 'E']
}

/// The word that the line of the lower corner of the domain begins with.
pub open spec fn word_domain_min() -> Seq<char> {
    seq!['D', 'O', 'M', 'A', 'I', 'N', '_', 'M', 'I', 'N']
}

/// The word that the line of the upper corner of the domain begins with.
pub open spec fn word_domain_max() -> Seq<char> {
    seq!['D', 'O', 'M', 'A', 'I', 'N', '_', 'M', 'A', 'X']
}

/// The word that a title line begins with.
pub open spec fn word_title() -> Seq<char> {
    seq!['T', 'I', 'T', 'L', 'E']
}

/// The whole number that a token spells: digits, after an optional `+`,
/// that stay within the machine's range of sizes.
pub open spec fn size_of_token(t: Seq<char>) -> Option<nat> {
    let start: int = if t.len() > 0 && t[0] == '+' {
        1
    } else {
        0
    };
    if start < t.len() && digits_end(t, start) == t.len() && digits_value(t, start, t.len() as int)
        <= usize::MAX {
        Some(digits_value(t, start, t.len() as int))
    } else {
        None
    }
}

/// The place of the first token that is no number, or the number of
/// tokens where each is one.
pub open spec fn first_malformed(ts: Seq<Seq<char>>) -> int
    decreases ts.len(),
{
    if ts.len() == 0 {
        0
    } else {
        let before = first_malformed(ts.drop_last());
        if before < ts.len() - 1 {
            before
        } else if number_of(ts.last()) is None {
            ts.len() - 1
        } else {
            ts.len() as int
        }
    }
}

/// The numbers that the tokens spell.
pub open spec fn numbers_of(ts: Seq<Seq<char>>) -> Seq<u32> {
    Seq::new(
        ts.len(),
        |k: int|
            match number_of(ts[k]) {
                Some(x) => x,
                None => 0,
            },
    )
}

/// The first three numbers as a triplet.
pub open spec fn triplet_of(v: Seq<u32>) -> Triplet {
    Triplet { r: v[0], g: v[1], b: v[2] }
}

/// What a cube description amounts to before any line is read: no edge
/// length, no samples, and the domain from zero to one.
pub open spec fn blank() -> Grid {
    Grid {
        size: 0,
        samples: Seq::empty(),
        domain_min: Triplet { r: 0, g: 0, b: 0 },
        domain_max: Triplet { r: ONE, g: ONE, b: ONE },
    }
}

/// The numbers of a line, from token `from` on: the fault of the first
/// token that is no number, else the numbers.
pub open spec fn line_numbers(ts: Seq<Seq<char>>, from: int, line: nat) -> Result<
    Seq<u32>,
    ParseFault,
> {
    let rest = ts.skip(from);
    let bad = first_malformed(rest);
    if bad < rest.len() {
        Err(ParseFault::MalformedNumber { line, token: rest[bad] })
    } else {
        Ok(numbers_of(rest))
    }
}

/// What a line adds to the description read so far. `line` is the number
/// of the line, counted from one.
pub open spec fn absorb(draft: Grid, text: Seq<char>, line: nat) -> Result<Grid, ParseFault> {
    let ts = tokens(text);
    if ts.len() == 0 {
        Ok(draft)
    } else if starts_with(ts[0], word_size()) {
        if ts.len() >= 2 {
            Ok(
                Grid {
                    size: match size_of_token(ts[1]) {
                        Some(n) => n,
                        None => 0,
                    },
                    ..draft
                },
            )
        } else {
            Ok(draft)
        }
    } else if starts_with(ts[0], word_domain_min()) {
        match line_numbers(ts, 1, line) {
            Err(fault) => Err(fault),
            Ok(v) => if v.len() == 3 {
                Ok(Grid { domain_min: triplet_of(v), ..draft })
            } else {
                Ok(draft)
            },
        }
    } else if starts_with(ts[0], word_domain_max()) {
        match line_numbers(ts, 1, line) {
            Err(fault) => Err(fault),
            Ok(v) => if v.len() == 3 {
                Ok(Grid { domain_max: triplet_of(v), ..draft })
            } else {
                Ok(draft)
            },
        }
    } else if ts[0][0] == '#' || starts_with(ts[0], word_title()) {
        Ok(draft)
    } else {
        match line_numbers(ts, 0, line) {
            Err(fault) => Err(fault),
            Ok(v) => if v.len() == 3 {
                Ok(Grid { samples: draft.samples.push(triplet_of(v)), ..draft })
            } else {
                Ok(draft)
            },
        }
    }
}

/// What the lines amount to, read in order from a blank description; the
/// first fault ends the reading.
pub open spec fn absorb_all(ls: Seq<Seq<char>>) -> Result<Grid, ParseFault>
    decreases ls.len(),
{
    if ls.len() == 0 {
        Ok(blank())
    } else {
        match absorb_all(ls.drop_last()) {
            Err(fault) => Err(fault),
            Ok(draft) => absorb(draft, ls.last(), ls.len()),
        }
    }
}

/// The cube that a text describes, or the fault that it is refused for.
pub open spec fn parsed(text: Seq<char>) -> Result<Grid, ParseFault> {
    match absorb_all(lines(text)) {
        Err(fault) => Err(fault),
        Ok(draft) => match grid_fault(draft.size, draft.samples.len()) {
            Some(fault) => Err(fault),
            None => Ok(draft),
        },
    }
}


/// Whether a character is white space.
pub fn is_white(c: char) -> (r: bool)
    ensures
        r == is_space(c),
{
    let u: u32 = c as u32;
    (0x09 <= u && u <= 0x0d) || u == 0x20 || u == 0x85 || u == 0xa0 || u == 0x1680 || (0x2000
        <= u && u <= 0x200a) || u == 0x2028 || u == 0x2029 || u == 0x202f || u == 0x205f || u
        == 0x3000
}

/// A stretch of a text, from `start` up to `end`.
#[derive(Clone, Copy, Debug)]
pub struct Span {
    pub start: usize,
    pub end: usize,
}

/// The characters of each stretch.
pub open spec fn spans_text(text: Seq<char>, spans: Seq<Span>) -> Seq<Seq<char>> {
    Seq::new(spans.len(), |k: int| text.subrange(spans[k].start as int, spans[k].end as int))
}

/// Each stretch lies between `from` and `to` and is not empty.
pub open spec fn spans_within(spans: Seq<Span>, from: int, to: int) -> bool {
    forall|k: int|
        0 <= k < spans.len() ==> from <= (#[trigger] spans[k]).start < spans[k].end <= to
}

/// The tokens of the line that runs from `from` up to `to`.
pub fn split_line(chars: &Vec<char>, from: usize, to: usize) -> (spans: Vec<Span>)
    requires
        from <= to <= chars@.len(),
    ensures
        spans_text(chars@, spans@) == tokens(chars@.subrange(from as int, to as int)),
        spans_within(spans@, from as int, to as int),
{
    let mut spans: Vec<Span> = Vec::new();
    let mut open: bool = false;
    let mut open_start: usize = from;
    let mut i: usize = from;
    proof {
        assert(chars@.subrange(from as int, from as int) =~= Seq::<char>::empty());
        assert(spans_text(chars@, spans@) =~= Seq::<Seq<char>>::empty());
    }
    while i < to
        invariant
            from <= i <= to <= chars@.len(),
            spans_within(spans@, from as int, i as int),
            open <==> (i > from && !is_space(chars@[i - 1])),
            open ==> from <= open_start < i,
            tokens(chars@.subrange(from as int, i as int)) == if open {
                spans_text(chars@, spans@).push(chars@.subrange(open_start as int, i as int))
            } else {
                spans_text(chars@, spans@)
            },
        decreases to - i,
    {
        let c: char = chars[i];
        let ghost line: Seq<char> = chars@.subrange(from as int, i + 1);
        let ghost done: Seq<Seq<char>> = spans_text(chars@, spans@);
        proof {
            assert(line.drop_last() =~= chars@.subrange(from as int, i as int));
            assert(line.last() == c);
            if line.len() >= 2 {
                assert(line[line.len() - 2] == chars@[i - 1]);
            }
        }
        if is_white(c) {
            if open {
                spans.push(Span { start: open_start, end: i });
                proof {
                    assert(spans_text(chars@, spans@) =~= done.push(
                        chars@.subrange(open_start as int, i as int),
                    ));
                }
                open = false;
            }
        } else {
            if open {
                proof {
                    let cur: Seq<char> = chars@.subrange(open_start as int, i as int);
                    let before: Seq<Seq<char>> = done.push(cur);
                    assert(before.last().push(c) =~= chars@.subrange(open_start as int, i + 1));
                    assert(before.update(before.len() - 1, before.last().push(c)) =~= done.push(
                        chars@.subrange(open_start as int, i + 1),
                    ));
                }
            } else {
                open = true;
                open_start = i;
                proof {
                    assert(seq![c] =~= chars@.subrange(i as int, i + 1));
                }
            }
        }
        i += 1;
    }
    if open {
        let ghost done: Seq<Seq<char>> = spans_text(chars@, spans@);
        spans.push(Span { start: open_start, end: to });
        proof {
            assert(spans_text(chars@, spans@) =~= done.push(
                chars@.subrange(open_start as int, to as int),
            ));
        }
    }
    spans
}

/// The characters of a stretch.
pub fn copy_span(chars: &Vec<char>, span: Span) -> (out: Vec<char>)
    requires
        span.start <= span.end <= chars@.len(),
    ensures
        out@ == chars@.subrange(span.start as int, span.end as int),
{
    let mut out: Vec<char> = Vec::new();
    let mut i: usize = span.start;
    while i < span.end
        invariant
            span.start <= i <= span.end <= chars@.len(),
            out@ == chars@.subrange(span.start as int, i as int),
        decreases span.end - i,
    {
        out.push(chars[i]);
        proof {
            assert(chars@.subrange(span.start as int, i + 1) =~= chars@.subrange(
                span.start as int,
                i as int,
            ).push(chars@[i as int]));
        }
        i += 1;
    }
    out
}

/// Whether the token begins with `word`.
pub fn begins_with(token: &Vec<char>, word: &Vec<char>) -> (r: bool)
    ensures
        r == starts_with(token@, word@),
{
    if token.len() < word.len() {
        return false;
    }
    let mut k: usize = 0;
    while k < word.len()
        invariant
            k <= word@.len() <= token@.len(),
            forall|i: int| 0 <= i < k ==> token@[i] == word@[i],
        decreases word@.len() - k,
    {
        if token[k] != word[k] {
            proof {
                assert(token@.take(word@.len() as int)[k as int] == token@[k as int]);
            }
            return false;
        }
        k += 1;
    }
    proof {
        assert(token@.take(word@.len() as int) =~= word@);
    }
    true
}

/// The digits up to `to` spell no more than the digits up to a later place.
proof fn lemma_digits_value_grows(t: Seq<char>, from: int, to: int, later: int)
    requires
        from <= to <= later,
    ensures
        digits_value(t, from, to) <= digits_value(t, from, later),
    decreases later - to,
{
    if to < later {
        lemma_digits_value_grows(t, from, to, later - 1);
    }
}

/// The edge length that a token gives: the whole number that it spells, or
/// zero where it spells none.
pub fn read_size(token: &Vec<char>) -> (n: usize)
    ensures
        n == match size_of_token(token@) {
            Some(v) => v,
            None => 0,
        },
{
    let len: usize = token.len();
    let start: usize = if len > 0 && token[0] == '+' {
        1
    } else {
        0
    };
    if start >= len {
        return 0;
    }
    let mut acc: usize = 0;
    let mut i: usize = start;
    while i < len
        invariant
            start <= i <= len,
            len == token@.len(),
            start < len,
            start == if token@.len() > 0 && token@[0] == '+' {
                1int
            } else {
                0int
            },
            digits_end(token@, i as int) == digits_end(token@, start as int),
            acc == digits_value(token@, start as int, i as int),
        decreases len - i,
    {
        let c: u32 = token[i] as u32;
        if !(0x30 <= c && c <= 0x39) {
            return 0;
        }
        let next: u128 = acc as u128 * 10 + (c - 0x30) as u128;
        if next > usize::MAX as u128 {
            proof {
                lemma_digits_value_grows(token@, start as int, i + 1, len as int);
            }
            return 0;
        }
        acc = next as usize;
        i += 1;
    }
    acc
}

/// Once a token that is no number has been met, it stays the first.
proof fn lemma_first_malformed_stays(ts: Seq<Seq<char>>, n: int)
    requires
        0 <= n <= ts.len(),
        first_malformed(ts.take(n)) < n,
    ensures
        first_malformed(ts) == first_malformed(ts.take(n)),
    decreases ts.len() - n,
{
    if n < ts.len() {
        assert(ts.take(n + 1).drop_last() =~= ts.take(n));
        lemma_first_malformed_stays(ts, n + 1);
    } else {
        assert(ts.take(n) =~= ts);
    }
}

/// The numbers of the tokens from place `from` on, or the place of the
/// first token that is no number.
pub fn read_numbers(chars: &Vec<char>, spans: &Vec<Span>, from: usize) -> (r: Result<
    Vec<u32>,
    usize,
>)
    requires
        from <= spans@.len(),
        spans_within(spans@, 0, chars@.len() as int),
    ensures
        match r {
            Ok(v) => {
                &&& first_malformed(spans_text(chars@, spans@).skip(from as int)) == spans@.len()
                    - from
                &&& v@ == numbers_of(spans_text(chars@, spans@).skip(from as int))
            },
            Err(k) => {
                &&& from <= k < spans@.len()
                &&& first_malformed(spans_text(chars@, spans@).skip(from as int)) == k - from
            },
        },
{
    let ghost rest: Seq<Seq<char>> = spans_text(chars@, spans@).skip(from as int);
    let mut out: Vec<u32> = Vec::new();
    let mut k: usize = from;
    proof {
        assert(rest.take(0) =~= Seq::<Seq<char>>::empty());
    }
    while k < spans.len()
        invariant
            from <= k <= spans@.len(),
            spans_within(spans@, 0, chars@.len() as int),
            rest == spans_text(chars@, spans@).skip(from as int),
            first_malformed(rest.take(k - from)) == k - from,
            out@ == numbers_of(rest.take(k - from)),
        decreases spans@.len() - k,
    {
        let token: Vec<char> = copy_span(chars, spans[k]);
        proof {
            assert(rest.take(k - from + 1).drop_last() =~= rest.take(k - from));
            assert(rest.take(k - from + 1).last() == token@);
        }
        match parse_chars(&token) {
            None => {
                proof {
                    lemma_first_malformed_stays(rest, k - from + 1);
                }
                return Err(k);
            },
            Some(x) => {
                out.push(x);
                proof {
                    assert(out@ =~= numbers_of(rest.take(k - from + 1)));
                }
            },
        }
        k += 1;
    }
    proof {
        assert(rest.take(k - from) =~= rest);
    }
    Ok(out)
}


/// A cube description as far as it has been read.
pub struct Draft {
    pub size: usize,
    pub samples: Vec<Triplet>,
    pub domain_min: Triplet,
    pub domain_max: Triplet,
}

impl View for Draft {
    type V = Grid;

    open spec fn view(&self) -> Grid {
        Grid {
            size: self.size as nat,
            samples: self.samples@,
            domain_min: self.domain_min,
            domain_max: self.domain_max,
        }
    }
}

/// The words that lines begin with.
pub struct Words {
    pub size: Vec<char>,
    pub domain_min: Vec<char>,
    pub domain_max: Vec<char>,
    pub title: Vec<char>,
}

impl Words {
    /// Each word is the word that it is named after.
    pub open spec fn wf(&self) -> bool {
        &&& self.size@ == word_size()
        &&& self.domain_min@ == word_domain_min()
        &&& self.domain_max@ == word_domain_max()
        &&& self.title@ == word_title()
    }

    /// The four words.
    pub fn new() -> (w: Words)
        ensures
            w.wf(),
    {
        let size: Vec<char> = vec!['L', 'U', 'T', '_', '3', 'D', '_', 'S', 'I', 'Z', 'E'];
        let domain_min: Vec<char> = vec!['D', 'O', 'M', 'A', 'I', 'N', '_', 'M', 'I', 'N'];
        let domain_max: Vec<char> = vec!['D', 'O', 'M', 'A', 'I', 'N', '_', 'M', 'A', 'X'];
        let title: Vec<char> = vec!['T', 'I', 'T', 'L', 'E'];
        assert(size@ =~= word_size());
        assert(domain_min@ =~= word_domain_min());
        assert(domain_max@ =~= word_domain_max());
        assert(title@ =~= word_title());
        Words { size, domain_min, domain_max, title }
    }
}

/// The error for a token that is no number.
fn malformed(text: &str, span: Span, line: usize) -> (e: ParseError)
    requires
        span.start <= span.end <= text@.len(),
    ensures
        e@ == (ParseFault::MalformedNumber {
            line: line as nat,
            token: text@.subrange(span.start as int, span.end as int),
        }),
{
    let token: String = String::from_str(text.substring_char(span.start, span.end));
    ParseError::MalformedNumber { line, token }
}

/// The three numbers of a line, where it has exactly three.
fn three_of(v: &Vec<u32>) -> (t: Option<Triplet>)
    ensures
        t == if v@.len() == 3 {
            Some(triplet_of(v@))
        } else {
            None
        },
{
    if v.len() == 3 {
        Some(Triplet { r: v[0], g: v[1], b: v[2] })
    } else {
        None
    }
}

/// The numbers of a line, from token `from` on, as a triplet where there
/// are exactly three.
fn read_triplet(
    text: &str,
    chars: &Vec<char>,
    spans: &Vec<Span>,
    from: usize,
    breaks: usize,
) -> (r: Result<Option<Triplet>, ParseError>)
    requires
        chars@ == text@,
        from <= spans@.len(),
        spans_within(spans@, breaks as int, chars@.len() as int),
    ensures
        match line_numbers(spans_text(chars@, spans@), from as int, (breaks + 1) as nat) {
            Ok(v) => r == Ok::<Option<Triplet>, ParseError>(
                if v.len() == 3 {
                    Some(triplet_of(v))
                } else {
                    None
                },
            ),
            Err(fault) => r matches Err(e) && e@ == fault,
        },
{
    match read_numbers(chars, spans, from) {
        Err(k) => {
            let ghost rest: Seq<Seq<char>> = spans_text(chars@, spans@).skip(from as int);
            assert(rest[k - from] == text@.subrange(spans@[k as int].start as int, spans@[k as int].end as int));
            Err(malformed(text, spans[k], breaks + 1))
        },
        Ok(v) => Ok(three_of(&v)),
    }
}

/// Takes the line that runs from `from` up to `to`, and has `breaks` lines
/// before it, into the draft.
fn absorb_line(
    text: &str,
    chars: &Vec<char>,
    from: usize,
    to: usize,
    breaks: usize,
    draft: &mut Draft,
    words: &Words,
) -> (r: Result<(), ParseError>)
    requires
        chars@ == text@,
        breaks <= from <= to <= chars@.len(),
        words.wf(),
    ensures
        match absorb(
            old(draft)@,
            chars@.subrange(from as int, to as int),
            (breaks + 1) as nat,
        ) {
            Ok(grid) => r is Ok && final(draft)@ == grid,
            Err(fault) => r matches Err(e) && e@ == fault,
        },
{
    let spans: Vec<Span> = split_line(chars, from, to);
    let ghost ts: Seq<Seq<char>> = tokens(chars@.subrange(from as int, to as int));
    if spans.len() == 0 {
        return Ok(());
    }
    let head: Vec<char> = copy_span(chars, spans[0]);
    assert(head@ == ts[0]);
    if begins_with(&head, &words.size) {
        if spans.len() >= 2 {
            let token: Vec<char> = copy_span(chars, spans[1]);
            assert(token@ == ts[1]);
            draft.size = read_size(&token);
        }
        Ok(())
    } else if begins_with(&head, &words.domain_min) {
        match read_triplet(text, chars, &spans, 1, breaks) {
            Err(e) => Err(e),
            Ok(found) => {
                match found {
                    Some(t) => {
                        draft.domain_min = t;
                    },
                    None => {},
                }
                Ok(())
            },
        }
    } else if begins_with(&head, &words.domain_max) {
        match read_triplet(text, chars, &spans, 1, breaks) {
            Err(e) => Err(e),
            Ok(found) => {
                match found {
                    Some(t) => {
                        draft.domain_max = t;
                    },
                    None => {},
                }
                Ok(())
            },
        }
    } else if head[0] == '#' || begins_with(&head, &words.title) {
        Ok(())
    } else {
        match read_triplet(text, chars, &spans, 0, breaks) {
            Err(e) => Err(e),
            Ok(found) => {
                match found {
                    Some(t) => {
                        draft.samples.push(t);
                    },
                    None => {},
                }
                Ok(())
            },
        }
    }
}

/// The lines that are complete at place `i` of a text stay as they are in
/// the whole text.
proof fn lemma_lines_keep(s: Seq<char>, i: int, j: int)
    requires
        0 <= i <= j <= s.len(),
    ensures
        lines(s.take(i)).len() >= 1,
        lines(s.take(j)).len() >= lines(s.take(i)).len(),
        lines(s.take(j)).take(lines(s.take(i)).len() - 1) == lines(s.take(i)).drop_last(),
    decreases j - i,
{
    lemma_lines_not_empty(s.take(i));
    if i < j {
        lemma_lines_keep(s, i, j - 1);
        lemma_lines_not_empty(s.take(j - 1));
        assert(s.take(j).drop_last() =~= s.take(j - 1));
        let before: Seq<Seq<char>> = lines(s.take(j - 1));
        let n: int = lines(s.take(i)).len() - 1;
        assert(lines(s.take(j)).take(n) =~= before.take(n));
    } else {
        let l: Seq<Seq<char>> = lines(s.take(i));
        assert(l.take(l.len() - 1) =~= l.drop_last());
    }
}

/// A text has at least one line.
proof fn lemma_lines_not_empty(s: Seq<char>)
    ensures
        lines(s).len() >= 1,
    decreases s.len(),
{
    if s.len() > 0 {
        lemma_lines_not_empty(s.drop_last());
    }
}

/// Once a line has been refused, the lines after it change nothing.
proof fn lemma_fault_stays(ls: Seq<Seq<char>>, n: int)
    requires
        0 <= n <= ls.len(),
        absorb_all(ls.take(n)) is Err,
    ensures
        absorb_all(ls) == absorb_all(ls.take(n)),
    decreases ls.len() - n,
{
    if n < ls.len() {
        assert(ls.take(n + 1).drop_last() =~= ls.take(n));
        lemma_fault_stays(ls, n + 1);
    } else {
        assert(ls.take(n) =~= ls);
    }
}


impl Lut3D {
    /// Reads the description of a cube.
    pub fn from_cube(text: &str) -> (r: Result<Lut3D, ParseError>)
        ensures
            match parsed(text@) {
                Ok(grid) => r matches Ok(lut) && lut@ == grid && grid.wf(),
                Err(fault) => r matches Err(e) && e@ == fault,
            },
    {
        let chars: Vec<char> = chars_of(text);
        let words: Words = Words::new();
        let len: usize = chars.len();
        let mut draft: Draft = Draft {
            size: 0,
            samples: Vec::new(),
            domain_min: Triplet { r: 0, g: 0, b: 0 },
            domain_max: Triplet { r: ONE, g: ONE, b: ONE },
        };
        let ghost mut done: Seq<Seq<char>> = Seq::empty();
        let mut start: usize = 0;
        let mut breaks: usize = 0;
        let mut i: usize = 0;
        proof {
            assert(chars@.take(0) =~= Seq::<char>::empty());
            assert(chars@.subrange(0, 0) =~= Seq::<char>::empty());
            assert(lines(chars@.take(0)) =~= done.push(chars@.subrange(0, 0)));
        }
        while i < len
            invariant
                start <= i <= len,
                len == chars@.len(),
                chars@ == text@,
                words.wf(),
                breaks == done.len(),
                breaks <= start,
                lines(chars@.take(i as int)) == done.push(chars@.subrange(start as int, i as int)),
                absorb_all(done) == Ok::<Grid, ParseFault>(draft@),
            decreases len - i,
        {
            let ghost cur: Seq<char> = chars@.subrange(start as int, i as int);
            proof {
                assert(chars@.take(i + 1).drop_last() =~= chars@.take(i as int));
                assert(done.push(cur).last() == cur);
            }
            if chars[i] == '\n' {
                proof {
                    assert(done.push(cur).drop_last() =~= done);
                }
                match absorb_line(text, &chars, start, i, breaks, &mut draft, &words) {
                    Err(e) => {
                        proof {
                            let closed: Seq<Seq<char>> = lines(chars@.take(i + 1));
                            assert(closed.drop_last() =~= done.push(cur));
                            lemma_lines_keep(chars@, i + 1, len as int);
                            assert(chars@.take(len as int) =~= chars@);
                            lemma_fault_stays(lines(chars@), (done.len() + 1) as int);
                        }
                        return Err(e);
                    },
                    Ok(_) => {},
                }
                proof {
                    done = done.push(cur);
                    assert(chars@.subrange(i + 1, i + 1) =~= Seq::<char>::empty());
                }
                start = i + 1;
                breaks = breaks + 1;
            } else {
                proof {
                    let before: Seq<Seq<char>> = done.push(cur);
                    assert(before.last().push(chars@[i as int]) =~= chars@.subrange(
                        start as int,
                        i + 1,
                    ));
                    assert(before.update(before.len() - 1, before.last().push(chars@[i as int]))
                        =~= done.push(chars@.subrange(start as int, i + 1)));
                }
            }
            i += 1;
        }
        let ghost cur: Seq<char> = chars@.subrange(start as int, len as int);
        proof {
            assert(chars@.take(len as int) =~= chars@);
            assert(done.push(cur).drop_last() =~= done);
            assert(done.push(cur).last() == cur);
        }
        match absorb_line(text, &chars, start, len, breaks, &mut draft, &words) {
            Err(e) => {
                return Err(e);
            },
            Ok(_) => {},
        }
        Lut3D::from_parts(draft.size, draft.samples, draft.domain_min, draft.domain_max)
    }
}

} // verus!
