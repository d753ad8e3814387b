//! Scanning through a window: what the scanner finds at an offset depends
//! on the bytes up to the one that decides it, wherever they lie in an input
//! and whatever follows them.

use vstd::prelude::*;
use crate::document::{lemma_same_bytes_shift, same_bytes};
use crate::error::ErrorKind;
use crate::lexical::{
    BACKSLASH, COMMA, digits_end, DOT, exponent_end, fraction_end, hex_run, is_digit, is_hex,
    is_simple_escape, is_ws, lemma_digits_end_bounds, lemma_exponent_end_bounds,
    lemma_fraction_end_bounds, lemma_hex_run_bounds, lemma_number_end_bounds,
    lemma_skip_ws_bounds, lemma_string_end_bounds, lemma_word_end_bounds, Lexed, LOWER_E,
    LOWER_F, LOWER_N, LOWER_T, LOWER_U, MINUS, number_end, PLUS, QUOTE, skip_ws, SPACE,
    string_end, UPPER_E, word_end, word_false, word_null, word_true, ZERO,
};
use crate::scanner::{
    key_at, lemma_key_at_bounds, lemma_value_at_bounds, member_at, next_step, Phase, ScanState,
    Step, step_at, value_at,
};
use crate::token::TokenView;

verus! {

/// Two windows of `n` bytes both reach the end of their input.
pub open spec fn ends_alike(s: Seq<u8>, p: int, t: Seq<u8>, q: int, n: int) -> bool {
    p + n == s.len() && q + n == t.len()
}

/// A result with its offset moved by `d`.
pub open spec fn shifted(r: Lexed, d: int) -> Lexed {
    match r {
        Ok(e) => Ok(e + d),
        Err((k, at)) => Err((k, at + d)),
    }
}

/// Whether a byte before offset `by` has decided the result.
pub open spec fn decided(r: Lexed, by: int) -> bool {
    match r {
        Ok(e) => e < by,
        Err((_, at)) => at < by,
    }
}

/// A token and its end, or an error, with the offset moved by `d`.
pub open spec fn shifted_token(r: Result<(TokenView, int), (ErrorKind, int)>, d: int) -> Result<
    (TokenView, int),
    (ErrorKind, int),
> {
    match r {
        Ok((t, e)) => Ok((t, e + d)),
        Err((k, at)) => Err((k, at + d)),
    }
}

/// Whether a byte before offset `by` has decided the token or the error.
pub open spec fn decided_token(r: Result<(TokenView, int), (ErrorKind, int)>, by: int) -> bool {
    match r {
        Ok((_, e)) => e < by,
        Err((_, at)) => at < by,
    }
}

/// A step with its offset moved by `d`.
pub open spec fn shifted_step(r: Step, d: int) -> Step {
    match r {
        Step::Token(t, e, st) => Step::Token(t, e + d, st),
        Step::Finished => Step::Finished,
        Step::Fault(k, at) => Step::Fault(k, at + d),
    }
}

/// Whether a byte before offset `by` has decided the step: a token has
/// ended, or an error has shown, before `by`.
pub open spec fn settled(r: Step, by: int) -> bool {
    match r {
        Step::Token(_, e, _) => e < by,
        Step::Finished => false,
        Step::Fault(_, at) => at < by,
    }
}

/// Whitespace is stepped over alike in two windows.
pub proof fn lemma_skip_ws_window(s: Seq<u8>, p: int, t: Seq<u8>, q: int, n: int)
    requires
        same_bytes(s, p, t, q, n),
        0 <= n,
        skip_ws(s, p) < p + n || ends_alike(s, p, t, q, n),
    ensures
        skip_ws(t, q) == skip_ws(s, p) + (q - p),
    decreases n,
{
    lemma_skip_ws_bounds(s, p);
    if n > 0 {
        assert(t[q + 0] == s[p + 0]);
        if is_ws(s[p]) {
            lemma_same_bytes_shift(s, p, t, q, n, 1);
            lemma_skip_ws_window(s, p + 1, t, q + 1, n - 1);
        }
    }
}

/// Digits are stepped over alike in two windows.
pub proof fn lemma_digits_end_window(s: Seq<u8>, p: int, t: Seq<u8>, q: int, n: int)
    requires
        same_bytes(s, p, t, q, n),
        0 <= n,
        digits_end(s, p) < p + n || ends_alike(s, p, t, q, n),
    ensures
        digits_end(t, q) == digits_end(s, p) + (q - p),
    decreases n,
{
    lemma_digits_end_bounds(s, p);
    if n > 0 {
        assert(t[q + 0] == s[p + 0]);
        if is_digit(s[p]) {
            lemma_same_bytes_shift(s, p, t, q, n, 1);
            lemma_digits_end_window(s, p + 1, t, q + 1, n - 1);
        }
    }
}

/// Hexadecimal digits are read alike in two windows.
pub proof fn lemma_hex_run_window(s: Seq<u8>, p: int, t: Seq<u8>, q: int, n: int, m: nat)
    requires
        same_bytes(s, p, t, q, n),
        0 <= n,
        decided(hex_run(s, p, m), p + n) || ends_alike(s, p, t, q, n),
    ensures
        hex_run(t, q, m) == shifted(hex_run(s, p, m), q - p),
    decreases m,
{
    lemma_hex_run_bounds(s, p, m);
    if m > 0 && n > 0 {
        assert(t[q + 0] == s[p + 0]);
        if is_hex(s[p]) {
            lemma_hex_run_bounds(s, p + 1, (m - 1) as nat);
            lemma_same_bytes_shift(s, p, t, q, n, 1);
            lemma_hex_run_window(s, p + 1, t, q + 1, n - 1, (m - 1) as nat);
        }
    }
}

/// A string is read alike in two windows.
pub proof fn lemma_string_end_window(s: Seq<u8>, p: int, t: Seq<u8>, q: int, n: int)
    requires
        same_bytes(s, p, t, q, n),
        0 <= n,
        decided(string_end(s, p), p + n) || ends_alike(s, p, t, q, n),
    ensures
        string_end(t, q) == shifted(string_end(s, p), q - p),
    decreases n,
{
    lemma_string_end_bounds(s, p);
    if n > 0 {
        assert(t[q + 0] == s[p + 0]);
        if s[p] == QUOTE {
        } else if s[p] == BACKSLASH {
            if p + 1 < s.len() {
                lemma_string_end_bounds(s, p + 2);
                lemma_hex_run_bounds(s, p + 2, 4);
                if hex_run(s, p + 2, 4) is Ok {
                    lemma_string_end_bounds(s, p + 6);
                }
                assert(n >= 2);
                assert(t[q + 1] == s[p + 1]);
                if is_simple_escape(s[p + 1]) {
                    lemma_string_end_bounds(s, p + 2);
                    lemma_same_bytes_shift(s, p, t, q, n, 2);
                    lemma_string_end_window(s, p + 2, t, q + 2, n - 2);
                } else if s[p + 1] == LOWER_U {
                    lemma_hex_run_bounds(s, p + 2, 4);
                    lemma_same_bytes_shift(s, p, t, q, n, 2);
                    if hex_run(s, p + 2, 4) is Ok {
                        lemma_string_end_bounds(s, p + 6);
                        lemma_hex_run_window(s, p + 2, t, q + 2, n - 2, 4);
                        lemma_same_bytes_shift(s, p, t, q, n, 6);
                        lemma_string_end_window(s, p + 6, t, q + 6, n - 6);
                    } else {
                        lemma_hex_run_window(s, p + 2, t, q + 2, n - 2, 4);
                    }
                }
            }
        } else if s[p] >= SPACE {
            lemma_string_end_bounds(s, p + 1);
            lemma_same_bytes_shift(s, p, t, q, n, 1);
            lemma_string_end_window(s, p + 1, t, q + 1, n - 1);
        }
    }
}

/// An exponent is read alike in two windows.
pub proof fn lemma_exponent_end_window(s: Seq<u8>, p: int, t: Seq<u8>, q: int, n: int)
    requires
        same_bytes(s, p, t, q, n),
        0 <= n,
        decided(exponent_end(s, p), p + n) || ends_alike(s, p, t, q, n),
    ensures
        exponent_end(t, q) == shifted(exponent_end(s, p), q - p),
{
    lemma_exponent_end_bounds(s, p);
    if n > 0 {
        assert(t[q + 0] == s[p + 0]);
        if s[p] == LOWER_E || s[p] == UPPER_E {
            if p + 1 < s.len() {
                lemma_digits_end_bounds(s, p + 1);
                lemma_digits_end_bounds(s, p + 2);
                assert(n >= 2);
                assert(t[q + 1] == s[p + 1]);
                let d = if s[p + 1] == PLUS || s[p + 1] == MINUS {
                    p + 2
                } else {
                    p + 1
                };
                if d < s.len() {
                    lemma_digits_end_bounds(s, d);
                    lemma_digits_end_bounds(s, d + 1);
                    assert(d - p < n);
                    assert(t[q + (d - p)] == s[p + (d - p)]);
                    if is_digit(s[d]) {
                        lemma_same_bytes_shift(s, p, t, q, n, d - p);
                        lemma_digits_end_window(s, d, t, q + (d - p), n - (d - p));
                    }
                }
            }
        }
    }
}

/// A fraction and its exponent are read alike in two windows.
pub proof fn lemma_fraction_end_window(s: Seq<u8>, p: int, t: Seq<u8>, q: int, n: int)
    requires
        same_bytes(s, p, t, q, n),
        0 <= n,
        decided(fraction_end(s, p), p + n) || ends_alike(s, p, t, q, n),
    ensures
        fraction_end(t, q) == shifted(fraction_end(s, p), q - p),
{
    lemma_fraction_end_bounds(s, p);
    if n > 0 {
        assert(t[q + 0] == s[p + 0]);
        if s[p] == DOT {
            if p + 1 < s.len() {
                lemma_digits_end_bounds(s, p + 1);
                lemma_digits_end_bounds(s, p + 2);
                lemma_exponent_end_bounds(s, digits_end(s, p + 1));
                assert(n >= 2);
                assert(t[q + 1] == s[p + 1]);
                if is_digit(s[p + 1]) {
                    let d = digits_end(s, p + 1);
                    lemma_same_bytes_shift(s, p, t, q, n, 1);
                    lemma_digits_end_window(s, p + 1, t, q + 1, n - 1);
                    lemma_same_bytes_shift(s, p, t, q, n, d - p);
                    lemma_exponent_end_window(s, d, t, q + (d - p), n - (d - p));
                }
            }
        } else {
            lemma_exponent_end_window(s, p, t, q, n);
        }
    } else {
        lemma_exponent_end_window(s, p, t, q, n);
    }
}

/// A number is read alike in two windows.
pub proof fn lemma_number_end_window(s: Seq<u8>, p: int, t: Seq<u8>, q: int, n: int)
    requires
        same_bytes(s, p, t, q, n),
        0 <= n,
        decided(number_end(s, p), p + n) || ends_alike(s, p, t, q, n),
    ensures
        number_end(t, q) == shifted(number_end(s, p), q - p),
{
    lemma_number_end_bounds(s, p);
    if n > 0 {
        assert(t[q + 0] == s[p + 0]);
        let a = if s[p] == MINUS {
            p + 1
        } else {
            p
        };
        if a < s.len() {
            lemma_digits_end_bounds(s, a);
            lemma_digits_end_bounds(s, a + 1);
            lemma_fraction_end_bounds(s, a + 1);
            lemma_fraction_end_bounds(s, digits_end(s, a));
            assert(a - p < n);
            assert(t[q + (a - p)] == s[p + (a - p)]);
            if is_digit(s[a]) {
                let b = if s[a] == ZERO {
                    a + 1
                } else {
                    digits_end(s, a)
                };
                lemma_same_bytes_shift(s, p, t, q, n, a - p);
                if s[a] != ZERO {
                    lemma_digits_end_window(s, a, t, q + (a - p), n - (a - p));
                }
                lemma_same_bytes_shift(s, p, t, q, n, b - p);
                lemma_fraction_end_window(s, b, t, q + (b - p), n - (b - p));
            }
        }
    }
}

/// A word is matched alike in two windows.
pub proof fn lemma_word_end_window(
    s: Seq<u8>,
    p: int,
    t: Seq<u8>,
    q: int,
    n: int,
    w: Seq<u8>,
    k: int,
)
    requires
        same_bytes(s, p, t, q, n),
        0 <= k <= w.len(),
        k <= n,
        decided(word_end(s, p, w, k), p + n) || ends_alike(s, p, t, q, n),
    ensures
        word_end(t, q, w, k) == shifted(word_end(s, p, w, k), q - p),
    decreases w.len() - k,
{
    lemma_word_end_bounds(s, p, w, k);
    if k < w.len() {
        if p + k < s.len() {
            lemma_word_end_bounds(s, p, w, k + 1);
            assert(k < n);
            assert(t[q + k] == s[p + k]);
            if s[p + k] == w[k] {
                lemma_word_end_window(s, p, t, q, n, w, k + 1);
            }
        }
    }
}

/// The bytes between two offsets are the same in two windows.
pub proof fn lemma_subrange_window(
    s: Seq<u8>,
    p: int,
    t: Seq<u8>,
    q: int,
    n: int,
    a: int,
    b: int,
)
    requires
        same_bytes(s, p, t, q, n),
        p <= a <= b <= p + n,
    ensures
        t.subrange(a + (q - p), b + (q - p)) == s.subrange(a, b),
{
    assert forall|k: int| 0 <= k < b - a implies t.subrange(a + (q - p), b + (q - p))[k]
        == s.subrange(a, b)[k] by {
        assert(t[q + (a - p + k)] == s[p + (a - p + k)]);
    }
    assert(t.subrange(a + (q - p), b + (q - p)) =~= s.subrange(a, b));
}

/// A value's first token is read alike in two windows.
pub proof fn lemma_value_at_window(s: Seq<u8>, p: int, t: Seq<u8>, q: int, n: int)
    requires
        same_bytes(s, p, t, q, n),
        0 <= n,
        decided_token(value_at(s, p), p + n) || ends_alike(s, p, t, q, n),
    ensures
        value_at(t, q) == shifted_token(value_at(s, p), q - p),
{
    lemma_value_at_bounds(s, p);
    if n > 0 {
        assert(t[q + 0] == s[p + 0]);
        if s[p] == QUOTE {
            lemma_string_end_bounds(s, p + 1);
            lemma_same_bytes_shift(s, p, t, q, n, 1);
            lemma_string_end_window(s, p + 1, t, q + 1, n - 1);
            if let Ok(e) = string_end(s, p + 1) {
                lemma_subrange_window(s, p, t, q, n, p + 1, e - 1);
            }
        } else if s[p] == MINUS || is_digit(s[p]) {
            lemma_number_end_bounds(s, p);
            lemma_number_end_window(s, p, t, q, n);
            if let Ok(e) = number_end(s, p) {
                lemma_subrange_window(s, p, t, q, n, p, e);
            }
        } else if s[p] == LOWER_T {
            lemma_word_end_window(s, p, t, q, n, word_true(), 0);
        } else if s[p] == LOWER_F {
            lemma_word_end_window(s, p, t, q, n, word_false(), 0);
        } else if s[p] == LOWER_N {
            lemma_word_end_window(s, p, t, q, n, word_null(), 0);
        }
    }
}

/// A key and its colon are read alike in two windows.
pub proof fn lemma_key_at_window(s: Seq<u8>, p: int, t: Seq<u8>, q: int, n: int)
    requires
        same_bytes(s, p, t, q, n),
        0 <= n,
        decided_token(key_at(s, p), p + n) || ends_alike(s, p, t, q, n),
    ensures
        key_at(t, q) == shifted_token(key_at(s, p), q - p),
{
    lemma_key_at_bounds(s, p);
    if n > 0 {
        assert(t[q + 0] == s[p + 0]);
        if s[p] == QUOTE {
            lemma_string_end_bounds(s, p + 1);
            lemma_same_bytes_shift(s, p, t, q, n, 1);
            if let Ok(e) = string_end(s, p + 1) {
                lemma_skip_ws_bounds(s, e);
                let c = skip_ws(s, e);
                lemma_string_end_window(s, p + 1, t, q + 1, n - 1);
                lemma_same_bytes_shift(s, p, t, q, n, e - p);
                lemma_skip_ws_window(s, e, t, q + (e - p), n - (e - p));
                if c < s.len() {
                    assert(t[q + (c - p)] == s[p + (c - p)]);
                }
                lemma_subrange_window(s, p, t, q, n, p + 1, e - 1);
            } else {
                lemma_string_end_window(s, p + 1, t, q + 1, n - 1);
            }
        }
    }
}

/// A member is read alike in two windows.
pub proof fn lemma_member_at_window(
    s: Seq<u8>,
    p: int,
    t: Seq<u8>,
    q: int,
    n: int,
    st: ScanState,
)
    requires
        same_bytes(s, p, t, q, n),
        0 <= n,
        settled(member_at(s, p, st), p + n) || ends_alike(s, p, t, q, n),
    ensures
        member_at(t, q, st) == shifted_step(member_at(s, p, st), q - p),
{
    if st.wants_key() {
        lemma_key_at_window(s, p, t, q, n);
    } else {
        lemma_value_at_window(s, p, t, q, n);
    }
}

/// A step is the step behind the whitespace, and decides nothing before it.
pub proof fn lemma_step_at(s: Seq<u8>, p: int, st: ScanState)
    requires
        0 <= p <= s.len(),
    ensures
        next_step(s, p, st) == step_at(s, skip_ws(s, p), st),
        p <= skip_ws(s, p) <= s.len(),
        settled(next_step(s, p, st), s.len() as int) ==> skip_ws(s, p) < s.len(),
        next_step(s, p, st) matches Step::Token(_, e, _) ==> skip_ws(s, p) < e,
        next_step(s, p, st) matches Step::Fault(_, at) ==> skip_ws(s, p) <= at,
{
    reveal(next_step);
    lemma_skip_ws_bounds(s, p);
    let j = skip_ws(s, p);
    lemma_value_at_bounds(s, j);
    lemma_key_at_bounds(s, j);
    if j < s.len() {
        lemma_skip_ws_bounds(s, j + 1);
        lemma_value_at_bounds(s, skip_ws(s, j + 1));
        lemma_key_at_bounds(s, skip_ws(s, j + 1));
    }
}

/// Behind the whitespace, a step is taken alike in two windows.
pub proof fn lemma_step_at_window(s: Seq<u8>, j: int, t: Seq<u8>, q: int, n: int, st: ScanState)
    requires
        same_bytes(s, j, t, q, n),
        0 <= n,
        j < s.len() ==> !is_ws(s[j]),
        settled(step_at(s, j, st), j + n) || ends_alike(s, j, t, q, n),
    ensures
        step_at(t, q, st) == shifted_step(step_at(s, j, st), q - j),
{
    lemma_value_at_bounds(s, j);
    lemma_key_at_bounds(s, j);
    if j < s.len() {
        lemma_skip_ws_bounds(s, j + 1);
        lemma_value_at_bounds(s, skip_ws(s, j + 1));
        lemma_key_at_bounds(s, skip_ws(s, j + 1));
        assert(n > 0);
        assert(t[q + 0] == s[j + 0]);
    }
    let closes = j < s.len() && st.stack.len() > 0 && s[j] == st.closer();
    match st.phase {
        Phase::Value => {
            lemma_member_at_window(s, j, t, q, n, st);
        },
        Phase::Open => {
            if !closes {
                lemma_member_at_window(s, j, t, q, n, st);
            }
        },
        Phase::After => {
            if st.stack.len() > 0 && j < s.len() && !closes && s[j] == COMMA {
                let m = skip_ws(s, j + 1);
                assert(m < j + n || ends_alike(s, j, t, q, n));
                lemma_same_bytes_shift(s, j, t, q, n, 1);
                lemma_skip_ws_window(s, j + 1, t, q + 1, n - 1);
                lemma_same_bytes_shift(s, j, t, q, n, m - j);
                lemma_member_at_window(s, m, t, q + (m - j), n - (m - j), st);
            }
        },
    }
}

/// A step is taken alike in two windows: where `n` bytes of `t` from `q` on
/// are those of `s` from `p` on, and either a byte among them has decided
/// the step in `s` or both inputs end with them, the step in `t` is that in
/// `s`, moved with the window.
pub proof fn lemma_next_step_window(
    s: Seq<u8>,
    p: int,
    t: Seq<u8>,
    q: int,
    n: int,
    st: ScanState,
)
    requires
        same_bytes(s, p, t, q, n),
        0 <= n,
        settled(next_step(s, p, st), p + n) || ends_alike(s, p, t, q, n),
    ensures
        next_step(t, q, st) == shifted_step(next_step(s, p, st), q - p),
{
    lemma_step_at(s, p, st);
    lemma_step_at(t, q, st);
    lemma_skip_ws_bounds(s, p);
    let j = skip_ws(s, p);
    assert(j < p + n || ends_alike(s, p, t, q, n));
    lemma_skip_ws_window(s, p, t, q, n);
    lemma_same_bytes_shift(s, p, t, q, n, j - p);
    lemma_step_at_window(s, j, t, j + (q - p), n - (j - p), st);
}

} // verus!
