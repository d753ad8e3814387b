//! The lexical layer of JSON: whitespace, string bodies, numbers and the
//! three literal words, each as a function on bytes with its specification.

use vstd::prelude::*;
use crate::error::{ErrorKind, TranscodeError};

verus! {

// The bytes that the grammar names.
pub const TAB: u8 = 0x09;
pub const LINE_FEED: u8 = 0x0A;
pub const CARRIAGE_RETURN: u8 = 0x0D;
pub const SPACE: u8 = 0x20;
pub const QUOTE: u8 = 0x22;
pub const PLUS: u8 = 0x2B;
pub const COMMA: u8 = 0x2C;
pub const MINUS: u8 = 0x2D;
pub const DOT: u8 = 0x2E;
pub const SLASH: u8 = 0x2F;
pub const ZERO: u8 = 0x30;
pub const NINE: u8 = 0x39;
pub const COLON: u8 = 0x3A;
pub const UPPER_A: u8 = 0x41;
pub const UPPER_E: u8 = 0x45;
pub const UPPER_F: u8 = 0x46;
pub const OPEN_BRACKET: u8 = 0x5B;
pub const BACKSLASH: u8 = 0x5C;
pub const CLOSE_BRACKET: u8 = 0x5D;
pub const LOWER_A: u8 = 0x61;
pub const LOWER_B: u8 = 0x62;
pub const LOWER_E: u8 = 0x65;
pub const LOWER_F: u8 = 0x66;
pub const LOWER_L: u8 = 0x6C;
pub const LOWER_N: u8 = 0x6E;
pub const LOWER_R: u8 = 0x72;
pub const LOWER_S: u8 = 0x73;
pub const LOWER_T: u8 = 0x74;
pub const LOWER_U: u8 = 0x75;
pub const OPEN_BRACE: u8 = 0x7B;
pub const CLOSE_BRACE: u8 = 0x7D;

/// What a lexical function finds: the offset behind what it has read, or
/// the kind of an error and the offset at which it was noticed.
pub type Lexed = Result<int, (ErrorKind, int)>;

/// Reading succeeded and ended at `e`.
pub open spec fn ok_at(e: int) -> Lexed {
    Ok(e)
}

/// Reading failed as `x` says.
pub open spec fn failed(x: (ErrorKind, int)) -> Lexed {
    Err(x)
}

/// The four bytes that JSON treats as insignificant between tokens.
pub open spec fn is_ws(b: u8) -> bool {
    b == SPACE || b == TAB || b == LINE_FEED || b == CARRIAGE_RETURN
}

pub open spec fn is_digit(b: u8) -> bool {
    ZERO <= b <= NINE
}

pub open spec fn is_hex(b: u8) -> bool {
    is_digit(b) || (UPPER_A <= b <= UPPER_F) || (LOWER_A <= b <= LOWER_F)
}

/// The bytes that may follow a backslash on their own: `"`, `\`, `/`, `b`,
/// `f`, `n`, `r`, `t`.
pub open spec fn is_simple_escape(b: u8) -> bool {
    b == QUOTE || b == BACKSLASH || b == SLASH || b == LOWER_B || b == LOWER_F || b == LOWER_N
        || b == LOWER_R || b == LOWER_T
}

/// The index of the first byte at or after `i` that is no whitespace.
pub open spec fn skip_ws(s: Seq<u8>, i: int) -> int
    decreases s.len() - i,
{
    if 0 <= i < s.len() && is_ws(s[i]) {
        skip_ws(s, i + 1)
    } else {
        i
    }
}

/// The index of the first byte at or after `i` that is no digit.
pub open spec fn digits_end(s: Seq<u8>, i: int) -> int
    decreases s.len() - i,
{
    if 0 <= i < s.len() && is_digit(s[i]) {
        digits_end(s, i + 1)
    } else {
        i
    }
}

/// Where the string ends whose body starts at `i`, just behind the opening
/// quote: the index behind its closing quote. Bytes of the body are taken as
/// they are, but for control characters, which are refused, and backslashes,
/// which must start one of the escapes of JSON.
pub open spec fn string_end(s: Seq<u8>, i: int) -> Lexed
    decreases
        (if i <= s.len() {
            s.len() - i
        } else {
            0
        }),
{
    if i < 0 || i >= s.len() {
        Err((ErrorKind::UnterminatedString, s.len() as int))
    } else if s[i] == QUOTE {
        Ok(i + 1)
    } else if s[i] == BACKSLASH {
        if i + 1 >= s.len() {
            Err((ErrorKind::UnterminatedString, s.len() as int))
        } else if is_simple_escape(s[i + 1]) {
            string_end(s, i + 2)
        } else if s[i + 1] == LOWER_U {
            match hex_quad(s, i + 2) {
                Ok(_) => string_end(s, i + 6),
                Err(e) => Err(e),
            }
        } else {
            Err((ErrorKind::InvalidEscape, i + 1))
        }
    } else if s[i] < SPACE {
        Err((ErrorKind::UnexpectedCharacter, i))
    } else {
        string_end(s, i + 1)
    }
}

/// Four hexadecimal digits at `i`: the index behind them, or the first place
/// where one is missing.
pub open spec fn hex_quad(s: Seq<u8>, i: int) -> Lexed {
    hex_run(s, i, 4)
}

/// `n` hexadecimal digits at `i`.
pub open spec fn hex_run(s: Seq<u8>, i: int, n: nat) -> Lexed
    decreases n,
{
    if n == 0 {
        Ok(i)
    } else if i < 0 || i >= s.len() {
        Err((ErrorKind::UnterminatedString, s.len() as int))
    } else if !is_hex(s[i]) {
        Err((ErrorKind::InvalidEscape, i))
    } else {
        hex_run(s, i + 1, (n - 1) as nat)
    }
}

/// Where the exponent that may start at `i` ends.
pub open spec fn exponent_end(s: Seq<u8>, i: int) -> Lexed {
    if 0 <= i < s.len() && (s[i] == LOWER_E || s[i] == UPPER_E) {
        let d = if i + 1 < s.len() && (s[i + 1] == PLUS || s[i + 1] == MINUS) {
            i + 2
        } else {
            i + 1
        };
        if d >= s.len() {
            Err((ErrorKind::UnexpectedEnd, s.len() as int))
        } else if !is_digit(s[d]) {
            Err((ErrorKind::MalformedLiteral, d))
        } else {
            Ok(digits_end(s, d))
        }
    } else {
        Ok(i)
    }
}

/// Where the fraction and exponent that may start at `i` end.
pub open spec fn fraction_end(s: Seq<u8>, i: int) -> Lexed {
    if 0 <= i < s.len() && s[i] == DOT {
        if i + 1 >= s.len() {
            Err((ErrorKind::UnexpectedEnd, s.len() as int))
        } else if !is_digit(s[i + 1]) {
            Err((ErrorKind::MalformedLiteral, i + 1))
        } else {
            exponent_end(s, digits_end(s, i + 1))
        }
    } else {
        exponent_end(s, i)
    }
}

/// Where the number that starts at `i` ends: an optional minus sign, an
/// integer part (a single `0`, or digits that start with none), an optional
/// fraction and an optional exponent. As many bytes are taken as fit.
pub open spec fn number_end(s: Seq<u8>, i: int) -> Lexed {
    let a = if 0 <= i < s.len() && s[i] == MINUS {
        i + 1
    } else {
        i
    };
    if a < 0 || a >= s.len() {
        Err((ErrorKind::UnexpectedEnd, s.len() as int))
    } else if !is_digit(s[a]) {
        Err((ErrorKind::MalformedLiteral, a))
    } else if s[a] == ZERO {
        fraction_end(s, a + 1)
    } else {
        fraction_end(s, digits_end(s, a))
    }
}

/// Where the word `w` ends that is expected at `i`, its first `k` bytes
/// having been matched already.
pub open spec fn word_end(s: Seq<u8>, i: int, w: Seq<u8>, k: int) -> Lexed
    decreases w.len() - k,
{
    if k < 0 || k >= w.len() {
        Ok(i + w.len())
    } else if i + k < 0 || i + k >= s.len() {
        Err((ErrorKind::UnexpectedEnd, s.len() as int))
    } else if s[i + k] != w[k] {
        Err((ErrorKind::MalformedLiteral, i + k))
    } else {
        word_end(s, i, w, k + 1)
    }
}

pub open spec fn word_true() -> Seq<u8> {
    seq![LOWER_T, LOWER_R, LOWER_U, LOWER_E]
}

pub open spec fn word_false() -> Seq<u8> {
    seq![LOWER_F, LOWER_A, LOWER_L, LOWER_S, LOWER_E]
}

pub open spec fn word_null() -> Seq<u8> {
    seq![LOWER_N, LOWER_U, LOWER_L, LOWER_L]
}

/// A run of digits ends at or behind its start, and inside the input.
pub proof fn lemma_digits_end_bounds(s: Seq<u8>, i: int)
    requires
        0 <= i <= s.len(),
    ensures
        i <= digits_end(s, i) <= s.len(),
        digits_end(s, i) < s.len() ==> !is_digit(s[digits_end(s, i)]),
        forall|k: int| i <= k < digits_end(s, i) ==> is_digit(#[trigger] s[k]),
    decreases s.len() - i,
{
    if i < s.len() && is_digit(s[i]) {
        lemma_digits_end_bounds(s, i + 1);
    }
}

/// A run of whitespace ends at or behind its start, and inside the input.
pub proof fn lemma_skip_ws_bounds(s: Seq<u8>, i: int)
    requires
        0 <= i <= s.len(),
    ensures
        i <= skip_ws(s, i) <= s.len(),
        skip_ws(s, i) < s.len() ==> !is_ws(s[skip_ws(s, i)]),
        forall|k: int| i <= k < skip_ws(s, i) ==> is_ws(#[trigger] s[k]),
    decreases s.len() - i,
{
    if i < s.len() && is_ws(s[i]) {
        lemma_skip_ws_bounds(s, i + 1);
    }
}

/// A string ends behind its start, and inside the input.
pub proof fn lemma_string_end_bounds(s: Seq<u8>, i: int)
    requires
        0 <= i <= s.len(),
    ensures
        string_end(s, i) matches Ok(e) ==> i < e <= s.len() && s[e - 1] == QUOTE,
        string_end(s, i) matches Err((_, at)) ==> i <= at <= s.len(),
    decreases s.len() - i,
{
    if i < s.len() && s[i] != QUOTE {
        if s[i] == BACKSLASH {
            if i + 1 < s.len() {
                if is_simple_escape(s[i + 1]) {
                    lemma_string_end_bounds(s, i + 2);
                } else if s[i + 1] == LOWER_U {
                    lemma_hex_run_bounds(s, i + 2, 4);
                    if hex_quad(s, i + 2) is Ok {
                        lemma_string_end_bounds(s, i + 6);
                    }
                }
            }
        } else if s[i] >= SPACE {
            lemma_string_end_bounds(s, i + 1);
        }
    }
}

/// A run of hexadecimal digits is as long as was asked for.
pub proof fn lemma_hex_run_bounds(s: Seq<u8>, i: int, n: nat)
    requires
        0 <= i <= s.len(),
    ensures
        hex_run(s, i, n) matches Ok(e) ==> e == i + n && e <= s.len() && forall|k: int|
            i <= k < e ==> is_hex(#[trigger] s[k]),
        hex_run(s, i, n) matches Err((_, at)) ==> i <= at <= s.len(),
    decreases n,
{
    if n > 0 && i < s.len() && is_hex(s[i]) {
        lemma_hex_run_bounds(s, i + 1, (n - 1) as nat);
    }
}

/// A number ends behind its start, and inside the input.
pub proof fn lemma_number_end_bounds(s: Seq<u8>, i: int)
    requires
        0 <= i <= s.len(),
    ensures
        number_end(s, i) matches Ok(e) ==> i < e <= s.len(),
        number_end(s, i) matches Err((_, at)) ==> i <= at <= s.len(),
{
    let a = if i < s.len() && s[i] == MINUS {
        i + 1
    } else {
        i
    };
    if a < s.len() && is_digit(s[a]) {
        lemma_digits_end_bounds(s, a);
        let b = if s[a] == ZERO {
            a + 1
        } else {
            digits_end(s, a)
        };
        lemma_fraction_end_bounds(s, b);
    }
}

/// A fraction with its exponent ends at or behind its start.
pub proof fn lemma_fraction_end_bounds(s: Seq<u8>, i: int)
    requires
        0 <= i <= s.len(),
    ensures
        fraction_end(s, i) matches Ok(e) ==> i <= e <= s.len(),
        fraction_end(s, i) matches Err((_, at)) ==> i <= at <= s.len(),
{
    if i < s.len() && s[i] == DOT {
        if i + 1 < s.len() && is_digit(s[i + 1]) {
            lemma_digits_end_bounds(s, i + 1);
            lemma_exponent_end_bounds(s, digits_end(s, i + 1));
        }
    } else {
        lemma_exponent_end_bounds(s, i);
    }
}

/// An exponent ends at or behind its start.
pub proof fn lemma_exponent_end_bounds(s: Seq<u8>, i: int)
    requires
        0 <= i <= s.len(),
    ensures
        exponent_end(s, i) matches Ok(e) ==> i <= e <= s.len(),
        exponent_end(s, i) matches Err((_, at)) ==> i <= at <= s.len(),
{
    if i < s.len() && (s[i] == LOWER_E || s[i] == UPPER_E) {
        let d = if i + 1 < s.len() && (s[i + 1] == PLUS || s[i + 1] == MINUS) {
            i + 2
        } else {
            i + 1
        };
        if d < s.len() && is_digit(s[d]) {
            lemma_digits_end_bounds(s, d);
        }
    }
}

/// A word that matches ends inside the input, and the input holds its bytes.
pub proof fn lemma_word_end_bounds(s: Seq<u8>, i: int, w: Seq<u8>, k: int)
    requires
        0 <= i <= s.len(),
        0 <= k <= w.len(),
        i + k <= s.len(),
    ensures
        word_end(s, i, w, k) matches Ok(e) ==> e == i + w.len() && e <= s.len() && forall|j: int|
            k <= j < w.len() ==> s[i + j] == #[trigger] w[j],
        word_end(s, i, w, k) matches Err((_, at)) ==> i + k <= at <= s.len(),
    decreases w.len() - k,
{
    if k < w.len() && i + k < s.len() && s[i + k] == w[k] {
        lemma_word_end_bounds(s, i, w, k + 1);
    }
}

pub fn is_whitespace(b: u8) -> (r: bool)
    ensures
        r == is_ws(b),
{
    b == SPACE || b == TAB || b == LINE_FEED || b == CARRIAGE_RETURN
}

pub fn is_decimal_digit(b: u8) -> (r: bool)
    ensures
        r == is_digit(b),
{
    ZERO <= b && b <= NINE
}

pub fn is_hex_digit(b: u8) -> (r: bool)
    ensures
        r == is_hex(b),
{
    (ZERO <= b && b <= NINE) || (UPPER_A <= b && b <= UPPER_F) || (LOWER_A <= b && b <= LOWER_F)
}

pub fn is_simple_escape_byte(b: u8) -> (r: bool)
    ensures
        r == is_simple_escape(b),
{
    b == QUOTE || b == BACKSLASH || b == SLASH || b == LOWER_B || b == LOWER_F || b == LOWER_N
        || b == LOWER_R || b == LOWER_T
}

/// Steps over whitespace.
pub fn skip_whitespace(input: &[u8], start: usize) -> (end: usize)
    requires
        start <= input@.len(),
    ensures
        end == skip_ws(input@, start as int),
        start <= end <= input@.len(),
{
    let mut i: usize = start;
    while i < input.len() && is_whitespace(input[i])
        invariant
            start <= i <= input@.len(),
            skip_ws(input@, start as int) == skip_ws(input@, i as int),
        decreases input@.len() - i,
    {
        i = i + 1;
    }
    i
}

/// Steps over digits.
pub fn skip_digits(input: &[u8], start: usize) -> (end: usize)
    requires
        start <= input@.len(),
    ensures
        end == digits_end(input@, start as int),
        start <= end <= input@.len(),
{
    let mut i: usize = start;
    while i < input.len() && is_decimal_digit(input[i])
        invariant
            start <= i <= input@.len(),
            digits_end(input@, start as int) == digits_end(input@, i as int),
        decreases input@.len() - i,
    {
        i = i + 1;
    }
    i
}

fn fault<T>(kind: ErrorKind, offset: usize) -> (r: Result<T, TranscodeError>)
    ensures
        r matches Err(e) && e@ == (kind, offset as int),
{
    Err(TranscodeError { kind, offset })
}

/// Checks the four hexadecimal digits of a `\u` escape.
pub fn scan_hex_quad(input: &[u8], start: usize) -> (r: Result<usize, TranscodeError>)
    requires
        start <= input@.len(),
    ensures
        match r {
            Ok(end) => hex_quad(input@, start as int) == ok_at(end as int)
                && end == start + 4 && end <= input@.len(),
            Err(e) => hex_quad(input@, start as int) == failed(e@),
        },
{
    let len: usize = input.len();
    let mut k: usize = 0;
    while k < 4
        invariant
            k <= 4,
            start + k <= input@.len() == len,
            hex_quad(input@, start as int) == hex_run(input@, start + k, (4 - k) as nat),
        decreases 4 - k,
    {
        if start + k >= input.len() {
            return fault(ErrorKind::UnterminatedString, input.len());
        }
        if !is_hex_digit(input[start + k]) {
            return fault(ErrorKind::InvalidEscape, start + k);
        }
        k = k + 1;
    }
    Ok(start + 4)
}

/// Finds the end of the string whose body starts at `start`.
pub fn scan_string(input: &[u8], start: usize) -> (r: Result<usize, TranscodeError>)
    requires
        start <= input@.len(),
    ensures
        match r {
            Ok(end) => string_end(input@, start as int) == ok_at(end as int)
                && start < end <= input@.len(),
            Err(e) => string_end(input@, start as int) == failed(e@),
        },
{
    let mut i: usize = start;
    loop
        invariant
            start <= i <= input@.len(),
            string_end(input@, start as int) == string_end(input@, i as int),
        decreases input@.len() - i,
    {
        if i >= input.len() {
            return fault(ErrorKind::UnterminatedString, input.len());
        }
        let b: u8 = input[i];
        if b == QUOTE {
            return Ok(i + 1);
        } else if b == BACKSLASH {
            if i + 1 >= input.len() {
                return fault(ErrorKind::UnterminatedString, input.len());
            }
            let c: u8 = input[i + 1];
            if is_simple_escape_byte(c) {
                i = i + 2;
            } else if c == LOWER_U {
                match scan_hex_quad(input, i + 2) {
                    Ok(end) => {
                        i = end;
                    },
                    Err(e) => {
                        return Err(e);
                    },
                }
            } else {
                return fault(ErrorKind::InvalidEscape, i + 1);
            }
        } else if b < SPACE {
            return fault(ErrorKind::UnexpectedCharacter, i);
        } else {
            i = i + 1;
        }
    }
}

/// Finds the end of the exponent that may start at `start`.
pub fn scan_exponent(input: &[u8], start: usize) -> (r: Result<usize, TranscodeError>)
    requires
        start <= input@.len(),
    ensures
        match r {
            Ok(end) => exponent_end(input@, start as int) == ok_at(end as int) && start <= end
                <= input@.len(),
            Err(e) => exponent_end(input@, start as int) == failed(e@),
        },
{
    if start < input.len() && (input[start] == LOWER_E || input[start] == UPPER_E) {
        let mut d: usize = start + 1;
        if d < input.len() && (input[d] == PLUS || input[d] == MINUS) {
            d = d + 1;
        }
        if d >= input.len() {
            fault(ErrorKind::UnexpectedEnd, input.len())
        } else if !is_decimal_digit(input[d]) {
            fault(ErrorKind::MalformedLiteral, d)
        } else {
            Ok(skip_digits(input, d))
        }
    } else {
        Ok(start)
    }
}

/// Finds the end of the fraction and exponent that may start at `start`.
pub fn scan_fraction(input: &[u8], start: usize) -> (r: Result<usize, TranscodeError>)
    requires
        start <= input@.len(),
    ensures
        match r {
            Ok(end) => fraction_end(input@, start as int) == ok_at(end as int) && start <= end
                <= input@.len(),
            Err(e) => fraction_end(input@, start as int) == failed(e@),
        },
{
    if start < input.len() && input[start] == DOT {
        if start + 1 >= input.len() {
            fault(ErrorKind::UnexpectedEnd, input.len())
        } else if !is_decimal_digit(input[start + 1]) {
            fault(ErrorKind::MalformedLiteral, start + 1)
        } else {
            let e: usize = skip_digits(input, start + 1);
            scan_exponent(input, e)
        }
    } else {
        scan_exponent(input, start)
    }
}

/// Finds the end of the number that starts at `start`.
pub fn scan_number(input: &[u8], start: usize) -> (r: Result<usize, TranscodeError>)
    requires
        start <= input@.len(),
    ensures
        match r {
            Ok(end) => number_end(input@, start as int) == ok_at(end as int)
                && start < end <= input@.len(),
            Err(e) => number_end(input@, start as int) == failed(e@),
        },
{
    let mut a: usize = start;
    if a < input.len() && input[a] == MINUS {
        a = a + 1;
    }
    if a >= input.len() {
        fault(ErrorKind::UnexpectedEnd, input.len())
    } else if !is_decimal_digit(input[a]) {
        fault(ErrorKind::MalformedLiteral, a)
    } else if input[a] == ZERO {
        scan_fraction(input, a + 1)
    } else {
        let b: usize = skip_digits(input, a);
        proof {
            lemma_digits_end_bounds(input@, a + 1);
        }
        scan_fraction(input, b)
    }
}

/// Matches the word `word` at `start`.
pub fn scan_word(input: &[u8], start: usize, word: &[u8]) -> (r: Result<usize, TranscodeError>)
    requires
        start <= input@.len(),
    ensures
        match r {
            Ok(end) => word_end(input@, start as int, word@, 0) == ok_at(end as int) && end
                == start + word@.len() && end <= input@.len(),
            Err(e) => word_end(input@, start as int, word@, 0) == failed(e@),
        },
{
    let len: usize = input.len();
    let mut k: usize = 0;
    while k < word.len()
        invariant
            k <= word@.len(),
            start + k <= input@.len() == len,
            word_end(input@, start as int, word@, 0) == word_end(
                input@,
                start as int,
                word@,
                k as int,
            ),
        decreases word@.len() - k,
    {
        if start + k >= input.len() {
            return fault(ErrorKind::UnexpectedEnd, input.len());
        }
        if input[start + k] != word[k] {
            return fault(ErrorKind::MalformedLiteral, start + k);
        }
        k = k + 1;
    }
    Ok(start + k)
}

} // verus!
