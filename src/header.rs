//! The header of a binary PPM file, stated over its bytes.
use vstd::prelude::*;
use vstd::utf8::{decode_utf8, valid_utf8};

use crate::image::PNMError;

verus! {

/// ASCII `P`, the first byte of every PNM file.
pub const MAGIC_P: u8 = 0x50;
/// ASCII `1`, the lowest PNM variant digit.
pub const DIGIT_ONE: u8 = 0x31;
/// ASCII `6`, the variant digit of binary PPM.
pub const DIGIT_SIX: u8 = 0x36;
/// ASCII `5`, the highest PNM variant digit that is recognised but not read.
pub const DIGIT_FIVE: u8 = 0x35;
/// ASCII `0`.
pub const DIGIT_ZERO: u8 = 0x30;
/// ASCII `9`.
pub const DIGIT_NINE: u8 = 0x39;
/// ASCII line feed.
pub const NEWLINE: u8 = 0x0a;
/// ASCII space.
pub const SPACE: u8 = 0x20;
/// ASCII `#`, which opens a comment line.
pub const HASH: u8 = 0x23;

/// What a well-formed header declares, and where the pixel payload begins.
pub struct Header {
    pub width: nat,
    pub height: nat,
    pub maximum_pixel: nat,
    pub comment: Seq<char>,
    pub data_start: int,
}

pub open spec fn is_digit(c: u8) -> bool {
    DIGIT_ZERO <= c <= DIGIT_NINE
}

/// The number written by a string of ASCII decimal digits, most significant first.
pub open spec fn decimal_value(s: Seq<u8>) -> nat
    decreases s.len(),
{
    if s.len() == 0 {
        0
    } else {
        decimal_value(s.drop_last()) * 10 + (s.last() - DIGIT_ZERO) as nat
    }
}

/// The first index at or after `i` that is past the end of `b` or holds a non-digit.
pub open spec fn digits_end(b: Seq<u8>, i: int) -> int
    decreases b.len() - i,
{
    if i < 0 || i >= b.len() || !is_digit(b[i]) {
        i
    } else {
        digits_end(b, i + 1)
    }
}

/// The newline that closes a run of adjacent comment lines, scanning from `i`:
/// a newline followed by `#` continues the run. `None` when the input ends first.
pub open spec fn comment_close(b: Seq<u8>, i: int) -> Option<int>
    decreases b.len() - i,
{
    if i < 0 || i >= b.len() {
        None
    } else if b[i] == NEWLINE {
        if i + 1 < b.len() && b[i + 1] == HASH {
            comment_close(b, i + 1)
        } else {
            Some(i)
        }
    } else {
        comment_close(b, i + 1)
    }
}

/// The error for an input that ends before the header does.
pub open spec fn end_of_input(pos: int) -> PNMError {
    PNMError::ParseError { pos: pos as usize, got: 0, ctx: "unexpected end of input." }
}

/// The magic number and the comment block: the comment's bytes and the index
/// at which the numeric fields begin.
pub open spec fn preamble(b: Seq<u8>) -> Result<(Seq<u8>, int), PNMError> {
    if b.len() < 1 || b[0] != MAGIC_P {
        Err(PNMError::NotPNMFormat)
    } else if b.len() < 2 || !(DIGIT_ONE <= b[1] <= DIGIT_SIX) {
        Err(PNMError::NotPNMFormat)
    } else if b[1] != DIGIT_SIX {
        Err(PNMError::UnsupportedPNMFormat)
    } else if b.len() < 3 {
        Err(end_of_input(b.len() as int))
    } else if b[2] != NEWLINE {
        Err(PNMError::ParseError { pos: 2, got: b[2], ctx: "expected newline." })
    } else if b.len() > 3 && b[3] == HASH {
        match comment_close(b, 3) {
            Some(e) => Ok((b.subrange(3, e), e + 1)),
            None => Err(end_of_input(b.len() as int)),
        }
    } else {
        Ok((Seq::empty(), 3))
    }
}

/// A decimal field that starts at `i` and is closed by the byte `stop`: its value
/// and the index just past `stop`.
pub open spec fn field(b: Seq<u8>, i: int, stop: u8) -> Result<(nat, int), PNMError> {
    let j = digits_end(b, i);
    if j >= b.len() {
        Err(end_of_input(j))
    } else if b[j] != stop {
        Err(PNMError::ParseError { pos: j as usize, got: b[j], ctx: "expected digit." })
    } else if decimal_value(b.subrange(i, j)) > usize::MAX {
        Err(PNMError::ParseError { pos: i as usize, got: b[i], ctx: "number too large." })
    } else {
        Ok((decimal_value(b.subrange(i, j)), j + 1))
    }
}

/// The header of `b`, or the first error met when reading it from the front.
pub open spec fn header(b: Seq<u8>) -> Result<Header, PNMError> {
    match preamble(b) {
        Err(e) => Err(e),
        Ok((text, start)) => {
            if !valid_utf8(text) {
                Err(PNMError::UTF8Error)
            } else {
                match field(b, start, SPACE) {
                    Err(e) => Err(e),
                    Ok((width, s1)) => match field(b, s1, NEWLINE) {
                        Err(e) => Err(e),
                        Ok((height, s2)) => match field(b, s2, NEWLINE) {
                            Err(e) => Err(e),
                            Ok((maximum_pixel, s3)) => Ok(
                                Header {
                                    width,
                                    height,
                                    maximum_pixel,
                                    comment: decode_utf8(text),
                                    data_start: s3,
                                },
                            ),
                        },
                    },
                }
            }
        },
    }
}

/// Appending a digit multiplies the value by ten and adds the digit.
pub proof fn lemma_decimal_push(s: Seq<u8>, d: u8)
    ensures
        decimal_value(s.push(d)) == decimal_value(s) * 10 + (d - DIGIT_ZERO) as nat,
{
    assert(s.push(d).drop_last() =~= s);
}

/// The newline that closes a comment run lies within the input, at or after the scan's start.
pub proof fn lemma_comment_close_bounds(b: Seq<u8>, i: int)
    requires
        comment_close(b, i) is Some,
    ensures
        i <= comment_close(b, i)->Some_0 < b.len(),
        b[comment_close(b, i)->Some_0] == NEWLINE,
    decreases b.len() - i,
{
    if 0 <= i < b.len() && !(b[i] == NEWLINE && !(i + 1 < b.len() && b[i + 1] == HASH)) {
        lemma_comment_close_bounds(b, i + 1);
    }
}

/// A prefix of a string of digits never writes a larger number than the whole.
pub proof fn lemma_decimal_prefix_le(s: Seq<u8>, k: int)
    requires
        0 <= k <= s.len(),
        forall|i: int| 0 <= i < s.len() ==> is_digit(#[trigger] s[i]),
    ensures
        decimal_value(s.subrange(0, k)) <= decimal_value(s),
    decreases s.len(),
{
    if k < s.len() {
        let t = s.drop_last();
        assert(t.subrange(0, k) =~= s.subrange(0, k));
        lemma_decimal_prefix_le(t, k);
    } else {
        assert(s.subrange(0, k) =~= s);
    }
}

/// Finds the newline that closes the run of comment lines scanned from `start`.
pub fn find_comment_close(b: &[u8], start: usize) -> (r: Option<usize>)
    requires
        start <= b@.len(),
    ensures
        r matches Some(e) ==> comment_close(b@, start as int) == Some(e as int),
        r is None ==> comment_close(b@, start as int) is None,
{
    let mut i: usize = start;
    while i < b.len()
        invariant
            start <= i <= b@.len(),
            comment_close(b@, start as int) == comment_close(b@, i as int),
        decreases b@.len() - i,
    {
        if b[i] == NEWLINE {
            if i + 1 < b.len() && b[i + 1] == HASH {
                i = i + 1;
            } else {
                return Some(i);
            }
        } else {
            i = i + 1;
        }
    }
    None
}

/// Reads the decimal field that starts at `start` and is closed by `stop`,
/// giving its value and the index just past `stop`. A value too large for
/// `usize` is refused rather than wrapped.
pub fn read_field(b: &[u8], start: usize, stop: u8) -> (r: Result<(usize, usize), PNMError>)
    requires
        start <= b@.len(),
    ensures
        field(b@, start as int, stop) == match r {
            Ok((v, next)) => Ok((v as nat, next as int)),
            Err(e) => Err::<(nat, int), PNMError>(e),
        },
{
    let mut j: usize = start;
    while j < b.len() && DIGIT_ZERO <= b[j] && b[j] <= DIGIT_NINE
        invariant
            start <= j <= b@.len(),
            digits_end(b@, start as int) == digits_end(b@, j as int),
            forall|k: int| start <= k < j ==> is_digit(#[trigger] b@[k]),
        decreases b@.len() - j,
    {
        j = j + 1;
    }
    if j >= b.len() {
        return Err(PNMError::ParseError { pos: j, got: 0, ctx: "unexpected end of input." });
    }
    if b[j] != stop {
        return Err(PNMError::ParseError { pos: j, got: b[j], ctx: "expected digit." });
    }
    let ghost digits = b@.subrange(start as int, j as int);
    let mut acc: usize = 0;
    let mut k: usize = start;
    while k < j
        invariant
            start <= k <= j < b@.len(),
            digits == b@.subrange(start as int, j as int),
            digits_end(b@, start as int) == j,
            b@[j as int] == stop,
            forall|i: int| start <= i < j ==> is_digit(#[trigger] b@[i]),
            acc == decimal_value(b@.subrange(start as int, k as int)),
        decreases j - k,
    {
        let d: usize = (b[k] - DIGIT_ZERO) as usize;
        proof {
            assert(b@.subrange(start as int, k + 1) =~= b@.subrange(start as int, k as int).push(
                b@[k as int],
            ));
            lemma_decimal_push(b@.subrange(start as int, k as int), b@[k as int]);
        }
        let next = match acc.checked_mul(10) {
            Some(m) => m.checked_add(d),
            None => None,
        };
        match next {
            Some(v) => {
                acc = v;
            },
            None => {
                proof {
                    assert(decimal_value(b@.subrange(start as int, k + 1)) > usize::MAX);
                    assert forall|i: int| 0 <= i < digits.len() implies is_digit(#[trigger] digits[i]) by {
                        assert(digits[i] == b@[start + i]);
                    }
                    assert(digits.subrange(0, k + 1 - start) =~= b@.subrange(start as int, k + 1));
                    lemma_decimal_prefix_le(digits, k + 1 - start);
                }
                return Err(PNMError::ParseError { pos: start, got: b[start], ctx: "number too large." });
            },
        }
        k = k + 1;
    }
    Ok((acc, j + 1))
}

/// Scanning a comment run passes over every byte that is not a newline.
pub proof fn lemma_comment_close_skip(b: Seq<u8>, i: int, e: int)
    requires
        0 <= i <= e,
        forall|k: int| i <= k < e && k < b.len() ==> b[k] != NEWLINE,
    ensures
        comment_close(b, i) == comment_close(b, e),
    decreases e - i,
{
    if i < e {
        lemma_comment_close_skip(b, i + 1, e);
    }
}

/// A digit run that stops before `e` ends where it would end scanned from `e`.
pub proof fn lemma_digits_end_skip(b: Seq<u8>, i: int, e: int)
    requires
        0 <= i <= e <= b.len(),
        forall|k: int| i <= k < e ==> is_digit(#[trigger] b[k]),
    ensures
        digits_end(b, i) == digits_end(b, e),
    decreases e - i,
{
    if i < e {
        lemma_digits_end_skip(b, i + 1, e);
    }
}

/// A buffer of at least three bytes that does not open with `P6` is refused:
/// as an unsupported variant when it opens with `P1` to `P5`, and as not PNM
/// at all otherwise.
pub proof fn lemma_foreign_magic(b: Seq<u8>)
    requires
        b.len() >= 3,
        !(b[0] == MAGIC_P && b[1] == DIGIT_SIX),
    ensures
        header(b) == if b[0] == MAGIC_P && DIGIT_ONE <= b[1] <= DIGIT_FIVE {
            Err::<Header, PNMError>(PNMError::UnsupportedPNMFormat)
        } else {
            Err::<Header, PNMError>(PNMError::NotPNMFormat)
        },
{
}

/// Without a comment line after the magic number, the comment is empty.
pub proof fn lemma_no_comment(b: Seq<u8>)
    requires
        b.len() <= 3 || b[3] != HASH,
    ensures
        header(b) matches Ok(h) ==> h.comment == Seq::<char>::empty(),
{
    assert(decode_utf8(Seq::empty()) =~= Seq::<char>::empty());
}

/// A single comment line `line` between the magic number and the fields is
/// the comment, without its closing newline.
pub proof fn lemma_single_comment(line: Seq<u8>, rest: Seq<u8>)
    requires
        line.len() > 0,
        line[0] == HASH,
        forall|k: int| 0 <= k < line.len() ==> line[k] != NEWLINE,
        rest.len() > 0 ==> rest[0] != HASH,
    ensures
        ({
            let b = seq![MAGIC_P, DIGIT_SIX, NEWLINE] + line + seq![NEWLINE] + rest;
            &&& preamble(b) == Ok::<(Seq<u8>, int), PNMError>((line, line.len() + 4 as int))
            &&& header(b) matches Ok(h) ==> h.comment == decode_utf8(line)
        }),
{
    let b = seq![MAGIC_P, DIGIT_SIX, NEWLINE] + line + seq![NEWLINE] + rest;
    let e = 3 + line.len() as int;
    assert(b[3] == HASH);
    assert forall|k: int| 3 <= k < e && k < b.len() implies b[k] != NEWLINE by {
        assert(b[k] == line[k - 3]);
    }
    lemma_comment_close_skip(b, 3, e);
    assert(b[e] == NEWLINE);
    if e + 1 < b.len() {
        assert(b[e + 1] == rest[0]);
    }
    assert(comment_close(b, e) == Some(e));
    assert(b.subrange(3, e) =~= line);
}

/// A comment line that is not well-formed UTF-8 makes the parse fail with
/// the UTF-8 error.
pub proof fn lemma_comment_not_utf8(line: Seq<u8>, rest: Seq<u8>)
    requires
        line.len() > 0,
        line[0] == HASH,
        forall|k: int| 0 <= k < line.len() ==> line[k] != NEWLINE,
        rest.len() > 0 ==> rest[0] != HASH,
        !valid_utf8(line),
    ensures
        header(seq![MAGIC_P, DIGIT_SIX, NEWLINE] + line + seq![NEWLINE] + rest) == Err::<
            Header,
            PNMError,
        >(PNMError::UTF8Error),
{
    lemma_single_comment(line, rest);
}

/// In `P6\n<w> <h><c>...`, with `w` and `h` runs of digits, `w` small enough for
/// `usize` and `c` neither a digit nor a newline, the parse fails at `c`
/// with the byte `c` and a context saying that a digit was expected.
pub proof fn lemma_bad_digit_in_height(w: Seq<u8>, h: Seq<u8>, c: u8, rest: Seq<u8>)
    requires
        forall|k: int| 0 <= k < w.len() ==> is_digit(#[trigger] w[k]),
        forall|k: int| 0 <= k < h.len() ==> is_digit(#[trigger] h[k]),
        decimal_value(w) <= usize::MAX,
        !is_digit(c),
        c != NEWLINE,
        4 + w.len() + h.len() <= usize::MAX,
    ensures
        header(
            seq![MAGIC_P, DIGIT_SIX, NEWLINE] + w + seq![SPACE] + h + seq![c] + rest,
        ) == Err::<Header, PNMError>(
            PNMError::ParseError {
                pos: (4 + w.len() + h.len()) as usize,
                got: c,
                ctx: "expected digit.",
            },
        ),
{
    let b = seq![MAGIC_P, DIGIT_SIX, NEWLINE] + w + seq![SPACE] + h + seq![c] + rest;
    let sp = 3 + w.len() as int;
    let cp = sp + 1 + h.len() as int;
    assert(b[3] != HASH) by {
        if w.len() > 0 {
            assert(b[3] == w[0]);
        } else {
            assert(b[3] == SPACE);
        }
    }
    assert(preamble(b) == Ok::<(Seq<u8>, int), PNMError>((Seq::empty(), 3)));
    assert(valid_utf8(Seq::empty()));
    assert forall|k: int| 3 <= k < sp implies is_digit(#[trigger] b[k]) by {
        assert(b[k] == w[k - 3]);
    }
    lemma_digits_end_skip(b, 3, sp);
    assert(b[sp] == SPACE);
    assert(b.subrange(3, sp) =~= w);
    assert(field(b, 3, SPACE) == Ok::<(nat, int), PNMError>((decimal_value(w), sp + 1)));
    assert forall|k: int| sp + 1 <= k < cp implies is_digit(#[trigger] b[k]) by {
        assert(b[k] == h[k - sp - 1]);
    }
    lemma_digits_end_skip(b, sp + 1, cp);
    assert(b[cp] == c);
}

} // verus!
