//! What transcoding changes: whitespace between tokens, and nothing else.

use vstd::prelude::*;
use crate::document::{admitted, lemma_document_well_formed, lemma_step_admits, scan_state_after};
use crate::emitter::{EmitState, emitted, rendered, state_after, token_text};
use crate::format::JSONFormatStyle;
use crate::lexical::{
    BACKSLASH, COMMA, digits_end, DOT, is_simple_escape, is_ws, lemma_digits_end_bounds,
    lemma_exponent_end_bounds, lemma_fraction_end_bounds, lemma_hex_run_bounds,
    lemma_number_end_bounds, lemma_skip_ws_bounds, lemma_string_end_bounds,
    lemma_word_end_bounds, LOWER_E, MINUS, number_end, ok_at, PLUS, QUOTE, skip_ws, string_end,
    UPPER_E, word_false, word_null, word_true, ZERO,
};
use crate::roundtrip::{in_step, lemma_in_step_after, lemma_scan_rendered, theorem_tokens_kept};
use crate::scanner::{
    key_at, lemma_step_bounds, lemma_value_at_bounds, next_step, Phase, scan, scan_from,
    ScanState, Step, value_at,
};
use crate::token::TokenView;
use crate::transcoder::{is_document, transcoded};

verus! {

/// Where a byte stands with respect to strings.
pub enum StripMode {
    /// Outside every string.
    Outside,
    /// Inside a string.
    Inside,
    /// Inside a string, just behind a backslash.
    Escaped,
}

impl StripMode {
    /// The mode behind the byte `b`.
    pub open spec fn step(self, b: u8) -> StripMode {
        match self {
            StripMode::Outside => if b == QUOTE {
                StripMode::Inside
            } else {
                StripMode::Outside
            },
            StripMode::Inside => if b == BACKSLASH {
                StripMode::Escaped
            } else if b == QUOTE {
                StripMode::Outside
            } else {
                StripMode::Inside
            },
            StripMode::Escaped => StripMode::Inside,
        }
    }

    /// Whether the byte `b` stays: every byte does, but whitespace outside
    /// strings.
    pub open spec fn keeps(self, b: u8) -> bool {
        !(self is Outside && is_ws(b))
    }
}

/// The mode behind the first `n` bytes of `s`.
pub open spec fn mode_at(s: Seq<u8>, n: int) -> StripMode
    decreases n,
{
    if n <= 0 {
        StripMode::Outside
    } else {
        mode_at(s, n - 1).step(s[n - 1])
    }
}

/// The first `n` bytes of `s` without the whitespace outside strings.
pub open spec fn stripped_upto(s: Seq<u8>, n: int) -> Seq<u8>
    decreases n,
{
    if n <= 0 {
        Seq::empty()
    } else if mode_at(s, n - 1).keeps(s[n - 1]) {
        stripped_upto(s, n - 1).push(s[n - 1])
    } else {
        stripped_upto(s, n - 1)
    }
}

/// The input without its whitespace, that inside strings left alone.
pub open spec fn without_whitespace(s: Seq<u8>) -> Seq<u8> {
    stripped_upto(s, s.len() as int)
}

/// A byte that is neither whitespace nor a quote.
pub open spec fn is_plain(b: u8) -> bool {
    !is_ws(b) && b != QUOTE
}

/// Whitespace outside strings leaves no trace.
pub proof fn lemma_strip_ws_run(s: Seq<u8>, a: int, b: int)
    requires
        0 <= a <= b <= s.len(),
        mode_at(s, a) is Outside,
        forall|k: int| a <= k < b ==> is_ws(#[trigger] s[k]),
    ensures
        mode_at(s, b) is Outside,
        stripped_upto(s, b) == stripped_upto(s, a),
    decreases b - a,
{
    if a < b {
        lemma_strip_ws_run(s, a, b - 1);
    }
}

/// Plain bytes outside strings stay as they are.
pub proof fn lemma_strip_plain_run(s: Seq<u8>, a: int, b: int)
    requires
        0 <= a <= b <= s.len(),
        mode_at(s, a) is Outside,
        forall|k: int| a <= k < b ==> is_plain(#[trigger] s[k]),
    ensures
        mode_at(s, b) is Outside,
        stripped_upto(s, b) == stripped_upto(s, a) + s.subrange(a, b),
    decreases b - a,
{
    if a < b {
        lemma_strip_plain_run(s, a, b - 1);
        assert(s.subrange(a, b) =~= s.subrange(a, b - 1).push(s[b - 1]));
        assert(stripped_upto(s, b) =~= stripped_upto(s, a) + s.subrange(a, b));
    } else {
        assert(stripped_upto(s, b) =~= stripped_upto(s, a) + s.subrange(a, b));
    }
}

/// Bytes inside a string that are neither quote nor backslash stay, and the
/// string goes on behind them.
pub proof fn lemma_strip_inside_run(s: Seq<u8>, a: int, b: int)
    requires
        0 <= a <= b <= s.len(),
        mode_at(s, a) is Inside,
        forall|k: int| a <= k < b ==> #[trigger] s[k] != QUOTE && s[k] != BACKSLASH,
    ensures
        mode_at(s, b) is Inside,
        stripped_upto(s, b) == stripped_upto(s, a) + s.subrange(a, b),
    decreases b - a,
{
    if a < b {
        lemma_strip_inside_run(s, a, b - 1);
        assert(s.subrange(a, b) =~= s.subrange(a, b - 1).push(s[b - 1]));
        assert(stripped_upto(s, b) =~= stripped_upto(s, a) + s.subrange(a, b));
    } else {
        assert(stripped_upto(s, b) =~= stripped_upto(s, a) + s.subrange(a, b));
    }
}

/// The body of a string, and its closing quote, stay as they are.
pub proof fn lemma_strip_string(s: Seq<u8>, i: int, e: int)
    requires
        0 <= i <= s.len(),
        string_end(s, i) == ok_at(e),
        mode_at(s, i) is Inside,
    ensures
        i < e <= s.len(),
        mode_at(s, e) is Outside,
        stripped_upto(s, e) == stripped_upto(s, i) + s.subrange(i, e),
    decreases s.len() - i,
{
    lemma_string_end_bounds(s, i);
    if s[i] == QUOTE {
        assert(s.subrange(i, e) =~= seq![s[i]]);
        assert(stripped_upto(s, i + 1) == stripped_upto(s, i).push(s[i]));
        assert(stripped_upto(s, e) =~= stripped_upto(s, i) + s.subrange(i, e));
    } else if s[i] == BACKSLASH {
        let m = if is_simple_escape(s[i + 1]) {
            i + 2
        } else {
            i + 6
        };
        assert(mode_at(s, i + 1) is Escaped);
        assert(mode_at(s, i + 2) is Inside);
        assert(stripped_upto(s, i + 1) == stripped_upto(s, i).push(s[i]));
        assert(stripped_upto(s, i + 2) == stripped_upto(s, i + 1).push(s[i + 1]));
        assert(s.subrange(i, i + 2) =~= seq![s[i], s[i + 1]]);
        assert(stripped_upto(s, i + 2) =~= stripped_upto(s, i) + s.subrange(i, i + 2));
        if !is_simple_escape(s[i + 1]) {
            lemma_hex_run_bounds(s, i + 2, 4);
            lemma_strip_inside_run(s, i + 2, i + 6);
        }
        assert(stripped_upto(s, m) =~= stripped_upto(s, i) + s.subrange(i, m));
        lemma_strip_string(s, m, e);
        lemma_string_end_bounds(s, m);
        assert(s.subrange(i, e) =~= s.subrange(i, m) + s.subrange(m, e));
    } else {
        assert(mode_at(s, i + 1) is Inside);
        assert(stripped_upto(s, i + 1) == stripped_upto(s, i).push(s[i]));
        assert(s.subrange(i, i + 1) =~= seq![s[i]]);
        assert(stripped_upto(s, i + 1) =~= stripped_upto(s, i) + s.subrange(i, i + 1));
        lemma_strip_string(s, i + 1, e);
        lemma_string_end_bounds(s, i + 1);
        assert(s.subrange(i, e) =~= s.subrange(i, i + 1) + s.subrange(i + 1, e));
    }
}

/// A whole string, from its opening quote on, stays as it is.
pub proof fn lemma_strip_quoted(s: Seq<u8>, q: int, e: int)
    requires
        0 <= q < s.len(),
        s[q] == QUOTE,
        string_end(s, q + 1) == ok_at(e),
        mode_at(s, q) is Outside,
    ensures
        q + 1 < e <= s.len(),
        mode_at(s, e) is Outside,
        stripped_upto(s, e) == stripped_upto(s, q) + s.subrange(q, e),
{
    assert(mode_at(s, q + 1) is Inside);
    assert(stripped_upto(s, q + 1) == stripped_upto(s, q).push(s[q]));
    assert(s.subrange(q, q + 1) =~= seq![s[q]]);
    assert(stripped_upto(s, q + 1) =~= stripped_upto(s, q) + s.subrange(q, q + 1));
    lemma_strip_string(s, q + 1, e);
    assert(s.subrange(q, e) =~= s.subrange(q, q + 1) + s.subrange(q + 1, e));
}

/// Every byte of a number is plain.
pub proof fn lemma_number_plain(s: Seq<u8>, i: int, e: int)
    requires
        0 <= i <= s.len(),
        number_end(s, i) == ok_at(e),
    ensures
        i < e <= s.len(),
        forall|k: int| i <= k < e ==> is_plain(#[trigger] s[k]),
{
    lemma_number_end_bounds(s, i);
    let a = if i < s.len() && s[i] == MINUS {
        i + 1
    } else {
        i
    };
    lemma_digits_end_bounds(s, a);
    let b = if s[a] == ZERO {
        a + 1
    } else {
        digits_end(s, a)
    };
    lemma_fraction_end_bounds(s, b);
    let c = if b < s.len() && s[b] == DOT {
        digits_end(s, b + 1)
    } else {
        b
    };
    if b < s.len() && s[b] == DOT {
        lemma_digits_end_bounds(s, b + 1);
    }
    lemma_exponent_end_bounds(s, c);
    if c < s.len() && (s[c] == LOWER_E || s[c] == UPPER_E) {
        let d = if c + 1 < s.len() && (s[c + 1] == PLUS || s[c + 1] == MINUS) {
            c + 2
        } else {
            c + 1
        };
        lemma_digits_end_bounds(s, d);
    }
}

/// The first token of a value stays as it is.
pub proof fn lemma_strip_value(s: Seq<u8>, q: int)
    requires
        0 <= q <= s.len(),
        value_at(s, q) is Ok,
        mode_at(s, q) is Outside,
    ensures
        value_at(s, q) matches Ok((t, e)) && q < e <= s.len() && mode_at(s, e) is Outside
            && stripped_upto(s, e) == stripped_upto(s, q) + token_text(t),
{
    let (t, e) = value_at(s, q)->Ok_0;
    lemma_value_at_bounds(s, q);
    match t {
        TokenView::String(b) => {
            lemma_strip_quoted(s, q, e);
            lemma_string_end_bounds(s, q + 1);
            assert(s.subrange(q, e) =~= token_text(t));
        },
        TokenView::Number(n) => {
            lemma_number_plain(s, q, e);
            lemma_strip_plain_run(s, q, e);
        },
        TokenView::Bool(b) => {
            let w = if b {
                word_true()
            } else {
                word_false()
            };
            lemma_word_end_bounds(s, q, w, 0);
            assert forall|k: int| q <= k < e implies is_plain(#[trigger] s[k]) by {
                assert(s[q + (k - q)] == w[k - q]);
            }
            lemma_strip_plain_run(s, q, e);
            assert(s.subrange(q, e) =~= w);
        },
        TokenView::Null => {
            let w = word_null();
            lemma_word_end_bounds(s, q, w, 0);
            assert forall|k: int| q <= k < e implies is_plain(#[trigger] s[k]) by {
                assert(s[q + (k - q)] == w[k - q]);
            }
            lemma_strip_plain_run(s, q, e);
            assert(s.subrange(q, e) =~= w);
        },
        _ => {
            lemma_strip_plain_run(s, q, e);
            assert(s.subrange(q, e) =~= token_text(t));
        },
    }
}

/// A key and its colon stay; the whitespace between them goes.
pub proof fn lemma_strip_key(s: Seq<u8>, q: int)
    requires
        0 <= q <= s.len(),
        key_at(s, q) is Ok,
        mode_at(s, q) is Outside,
    ensures
        key_at(s, q) matches Ok((t, e)) && q < e <= s.len() && mode_at(s, e) is Outside
            && stripped_upto(s, e) == stripped_upto(s, q) + token_text(t),
{
    let (t, e) = key_at(s, q)->Ok_0;
    let close = string_end(s, q + 1)->Ok_0;
    lemma_strip_quoted(s, q, close);
    lemma_string_end_bounds(s, q + 1);
    lemma_skip_ws_bounds(s, close);
    let c = skip_ws(s, close);
    lemma_strip_ws_run(s, close, c);
    lemma_strip_plain_run(s, c, c + 1);
    assert(s.subrange(c, c + 1) =~= seq![s[c]]);
    assert(s.subrange(q, close) + s.subrange(c, c + 1) =~= token_text(t));
}

/// The token that a step yields stays as the compact style writes it; the
/// whitespace around it goes.
pub proof fn lemma_strip_step(s: Seq<u8>, p: int, st: ScanState, em: EmitState)
    requires
        0 <= p <= s.len(),
        in_step(st, em),
        mode_at(s, p) is Outside,
        next_step(s, p, st) is Token,
    ensures
        next_step(s, p, st) matches Step::Token(t, e, _) && p < e <= s.len() && mode_at(s, e)
            is Outside && stripped_upto(s, e) == stripped_upto(s, p) + emitted(
            JSONFormatStyle::Compact,
            em,
            t,
        ),
{
    reveal(next_step);
    let style = JSONFormatStyle::Compact;
    lemma_step_bounds(s, p, st);
    lemma_step_admits(s, p, st);
    lemma_skip_ws_bounds(s, p);
    let j = skip_ws(s, p);
    lemma_strip_ws_run(s, p, j);
    let t = next_step(s, p, st)->Token_0;
    let e = next_step(s, p, st)->Token_1;
    if t.closes() {
        lemma_strip_plain_run(s, j, j + 1);
        assert(s.subrange(j, j + 1) =~= token_text(t));
        assert(em.tail(style) =~= Seq::<u8>::empty());
        assert(emitted(style, em, t) =~= token_text(t));
    } else {
        let q = if st.phase == Phase::After {
            skip_ws(s, j + 1)
        } else {
            j
        };
        if st.phase == Phase::After {
            lemma_strip_plain_run(s, j, j + 1);
            assert(s.subrange(j, j + 1) =~= seq![COMMA]);
            lemma_skip_ws_bounds(s, j + 1);
            lemma_strip_ws_run(s, j + 1, q);
            assert(em.lead(style) =~= seq![COMMA]);
        } else {
            assert(em.lead(style) =~= Seq::<u8>::empty());
            assert(stripped_upto(s, q) =~= stripped_upto(s, p) + em.lead(style));
        }
        if st.wants_key() {
            lemma_strip_key(s, q);
        } else {
            lemma_strip_value(s, q);
        }
        assert(emitted(style, em, t) =~= em.lead(style) + token_text(t));
        assert(stripped_upto(s, e) =~= stripped_upto(s, p) + emitted(style, em, t));
    }
}

/// Scanning a document from `p` on, behind the tokens `before`: without its
/// whitespace the document is what the compact style writes for its tokens.
pub proof fn lemma_strip_scan(s: Seq<u8>, p: int, before: Seq<TokenView>)
    requires
        0 <= p <= s.len(),
        admitted(before),
        mode_at(s, p) is Outside,
        stripped_upto(s, p) == rendered(JSONFormatStyle::Compact, before),
        scan_from(s, p, scan_state_after(before)).fault is None,
    ensures
        without_whitespace(s) == rendered(
            JSONFormatStyle::Compact,
            before + scan_from(s, p, scan_state_after(before)).tokens,
        ),
    decreases s.len() - p,
{
    reveal(next_step);
    let st = scan_state_after(before);
    let em = state_after(before);
    lemma_in_step_after(before);
    lemma_step_bounds(s, p, st);
    lemma_step_admits(s, p, st);
    match next_step(s, p, st) {
        Step::Token(t, e, st2) => {
            lemma_strip_step(s, p, st, em);
            let longer = before.push(t);
            assert(longer.drop_last() =~= before);
            lemma_strip_scan(s, e, longer);
            assert(before + scan_from(s, p, st).tokens =~= longer + scan_from(s, e, st2).tokens);
        },
        Step::Finished => {
            lemma_skip_ws_bounds(s, p);
            lemma_strip_ws_run(s, p, s.len() as int);
            assert(before + scan_from(s, p, st).tokens =~= before);
        },
        Step::Fault(_, _) => {},
    }
}

/// Without its whitespace, a document is what the compact style writes for
/// its tokens.
pub proof fn lemma_document_stripped(d: Seq<u8>)
    requires
        is_document(d),
    ensures
        without_whitespace(d) == rendered(JSONFormatStyle::Compact, scan(d).tokens),
{
    let none = Seq::<TokenView>::empty();
    lemma_strip_scan(d, 0, none);
    assert(none + scan(d).tokens =~= scan(d).tokens);
}

/// Transcoding changes whitespace only: without the whitespace outside
/// strings, the output is the input, byte for byte.
pub proof fn theorem_whitespace_only(d: Seq<u8>, style: JSONFormatStyle)
    requires
        is_document(d),
    ensures
        without_whitespace(transcoded(d, style)) == without_whitespace(d),
{
    theorem_tokens_kept(d, style);
    lemma_document_stripped(d);
    lemma_document_stripped(transcoded(d, style));
}

/// Whitespace between tokens is insignificant: two documents that are the
/// same without their whitespace have the same tokens, and so the same
/// output in every style.
pub proof fn theorem_whitespace_is_insignificant(
    d1: Seq<u8>,
    d2: Seq<u8>,
    style: JSONFormatStyle,
)
    requires
        is_document(d1),
        is_document(d2),
        without_whitespace(d1) == without_whitespace(d2),
    ensures
        scan(d1) == scan(d2),
        transcoded(d1, style) == transcoded(d2, style),
{
    lemma_document_stripped(d1);
    lemma_document_stripped(d2);
    lemma_document_well_formed(d1);
    lemma_document_well_formed(d2);
    lemma_scan_rendered(JSONFormatStyle::Compact, scan(d1).tokens);
    lemma_scan_rendered(JSONFormatStyle::Compact, scan(d2).tokens);
}

} // verus!
