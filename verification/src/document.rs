//! Documents as token streams: which streams the grammar admits, and that
//! the scanner yields exactly such streams.

use vstd::prelude::*;
use crate::lexical::{
    BACKSLASH, digits_end, DOT, exponent_end, fraction_end, hex_run, is_digit, is_simple_escape,
    lemma_digits_end_bounds, lemma_exponent_end_bounds, lemma_fraction_end_bounds,
    lemma_hex_run_bounds, lemma_number_end_bounds, lemma_skip_ws_bounds,
    lemma_string_end_bounds, LOWER_E, MINUS, number_end, ok_at, PLUS, QUOTE, skip_ws,
    string_end, UPPER_E, ZERO,
};
use crate::scanner::{
    lemma_step_bounds, member_at, next_step, Phase, scan, scan_from, ScanState, Step,
};
use crate::token::TokenView;

verus! {

/// Whether `b` can stand between the quotes of a string.
pub open spec fn valid_string_body(b: Seq<u8>) -> bool {
    string_end(b + seq![QUOTE], 0) == ok_at(b.len() as int + 1)
}

/// Whether `n` is a number literal, all of it.
pub open spec fn valid_number(n: Seq<u8>) -> bool {
    number_end(n, 0) == ok_at(n.len() as int)
}

/// Whether a byte behind a number would be read as part of it.
pub open spec fn continues_number(b: u8) -> bool {
    is_digit(b) || b == DOT || b == LOWER_E || b == UPPER_E
}

/// Two inputs hold the same `n` bytes, the one from `i` on, the other from
/// `j` on.
pub open spec fn same_bytes(s: Seq<u8>, i: int, t: Seq<u8>, j: int, n: int) -> bool {
    &&& 0 <= i && i + n <= s.len()
    &&& 0 <= j && j + n <= t.len()
    &&& forall|k: int| 0 <= k < n ==> #[trigger] t[j + k] == s[i + k]
}

/// What holds of `n` bytes holds of all but the first `k` of them.
pub proof fn lemma_same_bytes_shift(s: Seq<u8>, i: int, t: Seq<u8>, j: int, n: int, k: int)
    requires
        same_bytes(s, i, t, j, n),
        0 <= k <= n,
    ensures
        same_bytes(s, i + k, t, j + k, n - k),
{
    assert forall|m: int| 0 <= m < n - k implies #[trigger] t[j + k + m] == s[i + k + m] by {
        assert(t[j + (k + m)] == s[i + (k + m)]);
    }
}

/// Whether `t` ends at `j`, or goes on there with a byte that `stop` admits.
pub open spec fn stops_at(t: Seq<u8>, j: int, stop: spec_fn(u8) -> bool) -> bool {
    j == t.len() || (0 <= j < t.len() && stop(t[j]))
}

/// Where a run of digits ends depends on its bytes and on the byte behind
/// them.
pub proof fn lemma_digits_end_agrees(s: Seq<u8>, i: int, t: Seq<u8>, j: int)
    requires
        0 <= i <= s.len(),
        same_bytes(s, i, t, j, digits_end(s, i) - i),
        stops_at(t, j + (digits_end(s, i) - i), |b: u8| !is_digit(b)),
    ensures
        digits_end(t, j) == j + (digits_end(s, i) - i),
    decreases s.len() - i,
{
    lemma_digits_end_bounds(s, i);
    if i < s.len() && is_digit(s[i]) {
        lemma_digits_end_bounds(s, i + 1);
        lemma_same_bytes_shift(s, i, t, j, digits_end(s, i) - i, 1);
        assert(t[j + 0] == s[i + 0]);
        lemma_digits_end_agrees(s, i + 1, t, j + 1);
    }
}

/// Where an exponent ends depends on its bytes and on the byte behind them.
pub proof fn lemma_exponent_end_agrees(s: Seq<u8>, i: int, e: int, t: Seq<u8>, j: int)
    requires
        0 <= i <= s.len(),
        exponent_end(s, i) == ok_at(e),
        same_bytes(s, i, t, j, e - i),
        stops_at(t, j + (e - i), |b: u8| !continues_number(b)),
    ensures
        exponent_end(t, j) == ok_at(j + (e - i)),
{
    if i < s.len() && (s[i] == LOWER_E || s[i] == UPPER_E) {
        let d = if i + 1 < s.len() && (s[i + 1] == PLUS || s[i + 1] == MINUS) {
            i + 2
        } else {
            i + 1
        };
        lemma_digits_end_bounds(s, d);
        lemma_same_bytes_shift(s, i, t, j, e - i, d - i);
        assert(t[j + 0] == s[i + 0]);
        assert(t[j + 1] == s[i + 1]);
        assert(t[j + (d - i)] == s[i + (d - i)]);
        lemma_digits_end_agrees(s, d, t, j + (d - i));
    }
}

/// Where a fraction and its exponent end depends on their bytes and on the
/// byte behind them.
pub proof fn lemma_fraction_end_agrees(s: Seq<u8>, i: int, e: int, t: Seq<u8>, j: int)
    requires
        0 <= i <= s.len(),
        fraction_end(s, i) == ok_at(e),
        same_bytes(s, i, t, j, e - i),
        stops_at(t, j + (e - i), |b: u8| !continues_number(b)),
    ensures
        fraction_end(t, j) == ok_at(j + (e - i)),
{
    if i < s.len() && s[i] == DOT {
        lemma_digits_end_bounds(s, i + 1);
        let d = digits_end(s, i + 1);
        lemma_exponent_end_bounds(s, d);
        lemma_same_bytes_shift(s, i, t, j, e - i, 1);
        lemma_same_bytes_shift(s, i, t, j, e - i, d - i);
        assert(t[j + 0] == s[i + 0]);
        assert(t[j + 1] == s[i + 1]);
        assert(same_bytes(s, i + 1, t, j + 1, d - (i + 1))) by {
            assert forall|k: int| 0 <= k < d - (i + 1) implies #[trigger] t[j + 1 + k] == s[i + 1
                + k] by {
                assert(t[j + (1 + k)] == s[i + (1 + k)]);
            }
        }
        if d < e {
            assert(t[j + (d - i)] == s[i + (d - i)]);
        }
        lemma_digits_end_agrees(s, i + 1, t, j + 1);
        lemma_exponent_end_agrees(s, d, e, t, j + (d - i));
    } else {
        lemma_exponent_end_bounds(s, i);
        if i < e {
            assert(t[j + 0] == s[i + 0]);
        }
        lemma_exponent_end_agrees(s, i, e, t, j);
    }
}

/// Where a number ends depends on its bytes and on the byte behind them.
pub proof fn lemma_number_end_agrees(s: Seq<u8>, i: int, e: int, t: Seq<u8>, j: int)
    requires
        0 <= i <= s.len(),
        number_end(s, i) == ok_at(e),
        same_bytes(s, i, t, j, e - i),
        stops_at(t, j + (e - i), |b: u8| !continues_number(b)),
    ensures
        number_end(t, j) == ok_at(j + (e - i)),
{
    let a = if i < s.len() && s[i] == MINUS {
        i + 1
    } else {
        i
    };
    lemma_digits_end_bounds(s, a);
    let b = if s[a] == ZERO {
        a + 1
    } else {
        digits_end(s, a)
    };
    lemma_fraction_end_bounds(s, b);
    lemma_same_bytes_shift(s, i, t, j, e - i, a - i);
    lemma_same_bytes_shift(s, i, t, j, e - i, b - i);
    assert(t[j + 0] == s[i + 0]);
    assert(t[j + (a - i)] == s[i + (a - i)]);
    if s[a] != ZERO {
        assert(same_bytes(s, a, t, j + (a - i), b - a)) by {
            assert forall|k: int| 0 <= k < b - a implies #[trigger] t[j + (a - i) + k] == s[a
                + k] by {
                assert(t[j + ((a - i) + k)] == s[i + ((a - i) + k)]);
            }
        }
        if b < e {
            assert(t[j + (b - i)] == s[i + (b - i)]);
        }
        lemma_digits_end_agrees(s, a, t, j + (a - i));
    }
    lemma_fraction_end_agrees(s, b, e, t, j + (b - i));
}

/// Where hexadecimal digits are found depends on their bytes alone.
pub proof fn lemma_hex_run_agrees(s: Seq<u8>, i: int, t: Seq<u8>, j: int, n: nat)
    requires
        hex_run(s, i, n) is Ok,
        same_bytes(s, i, t, j, n as int),
    ensures
        hex_run(t, j, n) == ok_at(j + n),
    decreases n,
{
    if n > 0 {
        assert(t[j + 0] == s[i + 0]);
        assert forall|k: int| 0 <= k < n - 1 implies #[trigger] t[j + 1 + k] == s[i + 1 + k] by {
            assert(t[j + (k + 1)] == s[i + (k + 1)]);
        }
        lemma_hex_run_agrees(s, i + 1, t, j + 1, (n - 1) as nat);
    }
}

/// Where a string ends depends on its bytes alone.
pub proof fn lemma_string_end_agrees(s: Seq<u8>, i: int, e: int, t: Seq<u8>, j: int)
    requires
        string_end(s, i) == ok_at(e),
        same_bytes(s, i, t, j, e - i),
    ensures
        string_end(t, j) == ok_at(j + (e - i)),
    decreases s.len() - i,
{
    lemma_string_end_bounds(s, i);
    assert(t[j + 0] == s[i + 0]);
    if s[i] == QUOTE {
    } else if s[i] == BACKSLASH {
        assert(t[j + 1] == s[i + 1]);
        if is_simple_escape(s[i + 1]) {
            lemma_string_end_bounds(s, i + 2);
            assert forall|k: int| 0 <= k < e - (i + 2) implies #[trigger] t[j + 2 + k] == s[i + 2
                + k] by {
                assert(t[j + (k + 2)] == s[i + (k + 2)]);
            }
            lemma_string_end_agrees(s, i + 2, e, t, j + 2);
        } else {
            lemma_hex_run_bounds(s, i + 2, 4);
            lemma_string_end_bounds(s, i + 6);
            assert forall|k: int| 0 <= k < 4 implies #[trigger] t[j + 2 + k] == s[i + 2 + k] by {
                assert(t[j + (k + 2)] == s[i + (k + 2)]);
            }
            lemma_hex_run_agrees(s, i + 2, t, j + 2, 4);
            assert forall|k: int| 0 <= k < e - (i + 6) implies #[trigger] t[j + 6 + k] == s[i + 6
                + k] by {
                assert(t[j + (k + 6)] == s[i + (k + 6)]);
            }
            lemma_string_end_agrees(s, i + 6, e, t, j + 6);
        }
    } else {
        lemma_string_end_bounds(s, i + 1);
        assert forall|k: int| 0 <= k < e - (i + 1) implies #[trigger] t[j + 1 + k] == s[i + 1
            + k] by {
            assert(t[j + (k + 1)] == s[i + (k + 1)]);
        }
        lemma_string_end_agrees(s, i + 1, e, t, j + 1);
    }
}

impl ScanState {
    /// Whether a value may start here.
    pub open spec fn wants_value(self) -> bool {
        !self.wants_key() && !(self.phase == Phase::After && self.stack.len() == 0)
    }

    /// Whether the grammar allows the token `t` in this state.
    pub open spec fn admits(self, t: TokenView) -> bool {
        match t {
            TokenView::ObjectEnd => self.phase != Phase::Value && self.in_object(),
            TokenView::ArrayEnd => self.phase != Phase::Value && self.in_array(),
            TokenView::Key(b) => self.wants_key() && valid_string_body(b),
            TokenView::String(b) => self.wants_value() && valid_string_body(b),
            TokenView::Number(n) => self.wants_value() && valid_number(n),
            _ => self.wants_value(),
        }
    }

    /// What holds of every state that the scanner reaches: a container was
    /// just opened only if one is open, and a value is due inside a
    /// container only behind a key.
    pub open spec fn sane(self) -> bool {
        &&& self.phase == Phase::Open ==> self.stack.len() > 0
        &&& self.phase == Phase::Value && self.stack.len() > 0 ==> self.in_object()
    }

    /// Whether the document is complete in this state.
    pub open spec fn complete(self) -> bool {
        self.phase == Phase::After && self.stack.len() == 0
    }
}

/// The scanner's state behind the tokens `ts`.
pub open spec fn scan_state_after(ts: Seq<TokenView>) -> ScanState
    decreases ts.len(),
{
    if ts.len() == 0 {
        ScanState::initial()
    } else {
        scan_state_after(ts.drop_last()).advance(ts.last())
    }
}

/// Whether the grammar allows each of the tokens `ts` where it stands.
pub open spec fn admitted(ts: Seq<TokenView>) -> bool
    decreases ts.len(),
{
    ts.len() == 0 || (admitted(ts.drop_last()) && scan_state_after(ts.drop_last()).admits(
        ts.last(),
    ))
}

/// Whether `ts` is the token stream of one complete JSON value.
pub open spec fn well_formed(ts: Seq<TokenView>) -> bool {
    admitted(ts) && scan_state_after(ts).complete()
}

/// A token that the grammar allows leads from a sane state to a sane state.
pub proof fn lemma_advance_sane(st: ScanState, t: TokenView)
    requires
        st.sane(),
        st.admits(t),
    ensures
        st.advance(t).sane(),
{
    if t.closes() {
        assert(st.advance(t).phase == Phase::After);
    }
}

/// The bytes between the quotes of a string that was read are a valid body.
pub proof fn lemma_read_string_valid(s: Seq<u8>, i: int, e: int)
    requires
        0 <= i <= s.len(),
        string_end(s, i) == ok_at(e),
    ensures
        i < e <= s.len(),
        valid_string_body(s.subrange(i, e - 1)),
{
    lemma_string_end_bounds(s, i);
    let b = s.subrange(i, e - 1);
    let t = b + seq![QUOTE];
    assert forall|k: int| 0 <= k < e - i implies #[trigger] t[0 + k] == s[i + k] by {}
    lemma_string_end_agrees(s, i, e, t, 0);
}

/// The bytes of a number that was read are a number.
pub proof fn lemma_read_number_valid(s: Seq<u8>, i: int, e: int)
    requires
        0 <= i <= s.len(),
        number_end(s, i) == ok_at(e),
    ensures
        i < e <= s.len(),
        valid_number(s.subrange(i, e)),
{
    lemma_number_end_bounds(s, i);
    let t = s.subrange(i, e);
    assert forall|k: int| 0 <= k < e - i implies #[trigger] t[0 + k] == s[i + k] by {}
    lemma_number_end_agrees(s, i, e, t, 0);
}

/// The scanner yields only tokens that the grammar allows.
pub proof fn lemma_step_admits(s: Seq<u8>, i: int, st: ScanState)
    requires
        0 <= i <= s.len(),
    ensures
        next_step(s, i, st) matches Step::Token(t, e, st2) ==> st.admits(t) && st2 == st.advance(
            t,
        ) && i < e <= s.len(),
        next_step(s, i, st) is Finished ==> st.complete(),
{
    reveal(next_step);
    lemma_step_bounds(s, i, st);
    lemma_skip_ws_bounds(s, i);
    let j = skip_ws(s, i);
    lemma_member_admits(s, j, st);
    if j < s.len() {
        lemma_skip_ws_bounds(s, j + 1);
        lemma_member_admits(s, skip_ws(s, j + 1), st);
    }
}

/// A member that was read is a token that the grammar allows, unless the
/// document was complete already.
pub proof fn lemma_member_admits(s: Seq<u8>, i: int, st: ScanState)
    requires
        0 <= i <= s.len(),
    ensures
        member_at(s, i, st) matches Step::Token(t, e, st2) ==> st2 == st.advance(t) && (
        st.complete() || st.admits(t)),
{
    if i < s.len() {
        if st.wants_key() {
            if s[i] == QUOTE {
                lemma_string_end_bounds(s, i + 1);
                if let Ok(e) = string_end(s, i + 1) {
                    lemma_read_string_valid(s, i + 1, e);
                }
            }
        } else {
            if s[i] == QUOTE {
                lemma_string_end_bounds(s, i + 1);
                if let Ok(e) = string_end(s, i + 1) {
                    lemma_read_string_valid(s, i + 1, e);
                }
            } else if s[i] == MINUS || is_digit(s[i]) {
                if let Ok(e) = number_end(s, i) {
                    lemma_read_number_valid(s, i, e);
                }
            }
        }
    }
}

/// Scanning from a state that tokens allowed by the grammar have led to
/// yields, where it meets no error, the rest of a complete document.
pub proof fn lemma_scan_from_well_formed(s: Seq<u8>, i: int, before: Seq<TokenView>)
    requires
        0 <= i <= s.len(),
        admitted(before),
        scan_from(s, i, scan_state_after(before)).fault is None,
    ensures
        well_formed(before + scan_from(s, i, scan_state_after(before)).tokens),
    decreases s.len() - i,
{
    let st = scan_state_after(before);
    lemma_step_admits(s, i, st);
    match next_step(s, i, st) {
        Step::Token(t, e, st2) => {
            let longer = before.push(t);
            assert(longer.drop_last() =~= before);
            lemma_scan_from_well_formed(s, e, longer);
            assert(before + scan_from(s, i, st).tokens =~= longer + scan_from(s, e, st2).tokens);
        },
        Step::Finished => {
            assert(before + scan_from(s, i, st).tokens =~= before);
        },
        Step::Fault(_, _) => {},
    }
}

/// The tokens of a document are the token stream of one complete value.
pub proof fn lemma_document_well_formed(s: Seq<u8>)
    requires
        scan(s).fault is None,
    ensures
        well_formed(scan(s).tokens),
{
    let none = Seq::<TokenView>::empty();
    lemma_scan_from_well_formed(s, 0, none);
    assert(none + scan(s).tokens =~= scan(s).tokens);
}

} // verus!
