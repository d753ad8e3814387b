//! What transcoding keeps: the tokens of the document, whatever the style,
//! so that output which is transcoded again does not change.

use vstd::prelude::*;
use crate::document::{
    admitted, continues_number, lemma_advance_sane, lemma_document_well_formed,
    lemma_number_end_agrees, lemma_string_end_agrees, same_bytes, scan_state_after, stops_at,
    well_formed,
};
use crate::emitter::{
    EmitState, emitted, key_gap, line_break, rendered, repeat, state_after, token_text,
};
use crate::error::ErrorKind;
use crate::format::JSONFormatStyle;
use crate::lexical::{
    CLOSE_BRACE, CLOSE_BRACKET, COLON, COMMA, is_digit, is_ws, lemma_number_end_bounds,
    LINE_FEED, MINUS, ok_at, QUOTE, skip_ws, word_end, word_false, word_null, word_true,
};
use crate::scanner::{
    key_at, lemma_step_bounds, next_step, Phase, Scan, scan, scan_from, ScanState, Step,
    value_at,
};
use crate::token::TokenView;
use crate::transcoder::{is_document, transcoded};

verus! {

/// Whether every byte of `b` is whitespace.
pub open spec fn all_ws(b: Seq<u8>) -> bool {
    forall|k: int| 0 <= k < b.len() ==> is_ws(#[trigger] b[k])
}

/// Whether the input `s` holds the bytes `b` from `p` on.
pub open spec fn holds_at(s: Seq<u8>, p: int, b: Seq<u8>) -> bool {
    same_bytes(b, 0, s, p, b.len() as int)
}

/// An input that holds `a + b` holds `a`, and `b` behind it.
pub proof fn lemma_holds_split(s: Seq<u8>, p: int, a: Seq<u8>, b: Seq<u8>)
    requires
        holds_at(s, p, a + b),
    ensures
        holds_at(s, p, a),
        holds_at(s, p + a.len(), b),
{
    let ab = a + b;
    assert forall|k: int| 0 <= k < a.len() implies #[trigger] s[p + k] == a[0int + k] by {
        assert(s[p + k] == ab[0int + k]);
    }
    assert forall|k: int| 0 <= k < b.len() implies #[trigger] s[p + a.len() + k] == b[0int + k] by {
        assert(s[p + (a.len() + k)] == ab[0int + (a.len() + k)]);
    }
}

/// Whitespace that the input holds is stepped over.
pub proof fn lemma_skip_ws_over(s: Seq<u8>, p: int, w: Seq<u8>)
    requires
        holds_at(s, p, w),
        all_ws(w),
    ensures
        skip_ws(s, p) == skip_ws(s, p + w.len()),
    decreases w.len(),
{
    if w.len() > 0 {
        let rest = w.subrange(1, w.len() as int);
        assert(s[p + 0] == w[0int + 0]);
        assert forall|k: int| 0 <= k < rest.len() implies #[trigger] s[p + 1 + k] == rest[0
            + k] by {
            assert(s[p + (k + 1)] == w[0int + (k + 1)]);
        }
        lemma_skip_ws_over(s, p + 1, rest);
    }
}

/// Indentation is whitespace.
pub proof fn lemma_repeat_ws(unit: Seq<u8>, n: nat)
    requires
        all_ws(unit),
    ensures
        all_ws(repeat(unit, n)),
    decreases n,
{
    if n > 0 {
        lemma_repeat_ws(unit, (n - 1) as nat);
    }
}

/// A line break is whitespace.
pub proof fn lemma_line_break_ws(style: JSONFormatStyle, depth: nat)
    ensures
        all_ws(line_break(style, depth)),
        all_ws(key_gap(style)),
{
    match style {
        JSONFormatStyle::Compact => {},
        JSONFormatStyle::Pretty(ind) => {
            lemma_repeat_ws(ind.unit(), depth);
        },
    }
}

/// How the state of the emitter follows that of the scanner on a document's
/// tokens: as many frames as open containers; behind a key exactly where a
/// value is due inside a container; the innermost frame without a member
/// exactly where its container was just opened; every outer frame with one.
pub open spec fn in_step(st: ScanState, em: EmitState) -> bool {
    &&& st.sane()
    &&& em.frames.len() == st.stack.len()
    &&& em.after_key == (st.phase == Phase::Value && st.stack.len() > 0)
    &&& st.stack.len() > 0 ==> em.frames.last() == (st.phase != Phase::Open)
    &&& forall|k: int| 0 <= k < em.frames.len() - 1 ==> #[trigger] em.frames[k]
}

/// A token that the grammar allows keeps the two states in step.
pub proof fn lemma_in_step_advance(st: ScanState, em: EmitState, t: TokenView)
    requires
        in_step(st, em),
        st.admits(t),
    ensures
        in_step(st.advance(t), em.advance(t)),
{
    lemma_advance_sane(st, t);
}

/// The two states are in step behind tokens that the grammar allows.
pub proof fn lemma_in_step_after(ts: Seq<TokenView>)
    requires
        admitted(ts),
    ensures
        in_step(scan_state_after(ts), state_after(ts)),
    decreases ts.len(),
{
    if ts.len() > 0 {
        lemma_in_step_after(ts.drop_last());
        lemma_in_step_advance(
            scan_state_after(ts.drop_last()),
            state_after(ts.drop_last()),
            ts.last(),
        );
    }
}

/// The text of a token that the grammar allows starts with a byte that is
/// neither whitespace nor a comma, and, unless the token closes a container,
/// no closing bracket.
pub proof fn lemma_text_start(st: ScanState, t: TokenView)
    requires
        st.admits(t),
    ensures
        token_text(t).len() > 0,
        !is_ws(token_text(t)[0]),
        token_text(t)[0] != COMMA,
        !t.closes() ==> token_text(t)[0] != CLOSE_BRACE && token_text(t)[0] != CLOSE_BRACKET,
        t is Number ==> token_text(t)[0] == MINUS || is_digit(token_text(t)[0]),
{
    match t {
        TokenView::Number(n) => {
            lemma_number_end_bounds(n, 0);
        },
        _ => {},
    }
}

/// An input that holds the text of a value's first token yields that token
/// there.
pub proof fn lemma_value_text_read(s: Seq<u8>, q: int, st: ScanState, t: TokenView)
    requires
        st.admits(t),
        !t.closes(),
        !(t is Key),
        holds_at(s, q, token_text(t)),
        t is Number ==> stops_at(s, q + token_text(t).len(), |b: u8| !continues_number(b)),
    ensures
        value_at(s, q) == Ok::<(TokenView, int), (ErrorKind, int)>(
            (t, q + token_text(t).len()),
        ),
{
    let text = token_text(t);
    lemma_text_start(st, t);
    assert(s[q + 0] == text[0int + 0]);
    match t {
        TokenView::String(b) => {
            let closed = b + seq![QUOTE];
            assert forall|k: int| 0 <= k < closed.len() implies #[trigger] s[q + 1 + k]
                == closed[0int + k] by {
                assert(s[q + (k + 1)] == text[0int + (k + 1)]);
            }
            lemma_string_end_agrees(closed, 0, b.len() as int + 1, s, q + 1);
            assert(s.subrange(q + 1, q + 1 + b.len()) =~= b) by {
                assert forall|k: int| 0 <= k < b.len() implies s[q + 1 + k] == b[k] by {
                    assert(s[q + 1 + k] == closed[0int + k]);
                }
            }
        },
        TokenView::Number(n) => {
            lemma_number_end_agrees(n, 0, n.len() as int, s, q);
            assert(s.subrange(q, q + n.len()) =~= n) by {
                assert forall|k: int| 0 <= k < n.len() implies s[q + k] == n[k] by {
                    assert(s[q + k] == n[0int + k]);
                }
            }
        },
        TokenView::Bool(b) => {
            if b {
                lemma_word_read(s, q, word_true(), 0);
            } else {
                lemma_word_read(s, q, word_false(), 0);
            }
        },
        TokenView::Null => {
            lemma_word_read(s, q, word_null(), 0);
        },
        _ => {},
    }
}

/// An input that holds a word yields it.
pub proof fn lemma_word_read(s: Seq<u8>, q: int, w: Seq<u8>, k: int)
    requires
        holds_at(s, q, w),
        0 <= k <= w.len(),
    ensures
        word_end(s, q, w, k) == ok_at(q + w.len()),
    decreases w.len() - k,
{
    if k < w.len() {
        assert(s[q + k] == w[0int + k]);
        lemma_word_read(s, q, w, k + 1);
    }
}

/// An input that holds the text of a key yields that key there.
pub proof fn lemma_key_text_read(s: Seq<u8>, q: int, st: ScanState, t: TokenView)
    requires
        st.admits(t),
        t is Key,
        holds_at(s, q, token_text(t)),
    ensures
        key_at(s, q) == Ok::<(TokenView, int), (ErrorKind, int)>(
            (t, q + token_text(t).len()),
        ),
{
    let text = token_text(t);
    let b = t->Key_0;
    let closed = b + seq![QUOTE];
    assert(s[q + 0] == text[0int + 0]);
    assert forall|k: int| 0 <= k < closed.len() implies #[trigger] s[q + 1 + k] == closed[0int
        + k] by {
        assert(s[q + (k + 1)] == text[0int + (k + 1)]);
    }
    lemma_string_end_agrees(closed, 0, b.len() as int + 1, s, q + 1);
    let e = q + 1 + b.len() + 1;
    assert(s[q + (b.len() + 2)] == text[0int + (b.len() + 2)]);
    assert(s[e] == COLON);
    assert(s.subrange(q + 1, q + 1 + b.len()) =~= b) by {
        assert forall|k: int| 0 <= k < b.len() implies s[q + 1 + k] == b[k] by {
            assert(s[q + 1 + k] == closed[0int + k]);
        }
    }
}

/// How many bytes the scanner takes for the token `t` where the emitter has
/// written it in state `em`: all that was written, but for the space behind
/// the colon of a key.
pub open spec fn read_len(style: JSONFormatStyle, em: EmitState, t: TokenView) -> int {
    if t is Key {
        emitted(style, em, t).len() - key_gap(style).len()
    } else {
        emitted(style, em, t).len() as int
    }
}

/// An input that holds what the emitter writes for a token yields that
/// token, read in the scanner's state that is in step with the emitter's.
pub proof fn lemma_reads_emitted(
    s: Seq<u8>,
    p: int,
    st: ScanState,
    em: EmitState,
    style: JSONFormatStyle,
    t: TokenView,
)
    requires
        in_step(st, em),
        st.admits(t),
        holds_at(s, p, emitted(style, em, t)),
        t is Number ==> stops_at(
            s,
            p + emitted(style, em, t).len(),
            |b: u8| !continues_number(b),
        ),
    ensures
        next_step(s, p, st) == Step::Token(t, p + read_len(style, em, t), st.advance(t)),
{
    reveal(next_step);
    let text = token_text(t);
    lemma_text_start(st, t);
    let depth = em.frames.len();
    lemma_line_break_ws(style, depth);
    if t.closes() {
        let tail = em.tail(style);
        lemma_line_break_ws(style, (depth - 1) as nat);
        lemma_holds_split(s, p, tail, text);
        let q = p + tail.len();
        assert(s[q + 0] == text[0int + 0]);
        lemma_skip_ws_over(s, p, tail);
        assert(skip_ws(s, p) == q);
    } else {
        let lead = em.lead(style);
        let gap = key_gap(style);
        let q = p + lead.len();
        if t is Key {
            assert(emitted(style, em, t) =~= lead + (text + gap));
            lemma_holds_split(s, p, lead, text + gap);
            lemma_holds_split(s, q, text, gap);
            lemma_key_text_read(s, q, st, t);
        } else {
            lemma_holds_split(s, p, lead, text);
            assert(q + text.len() == p + emitted(style, em, t).len());
            lemma_value_text_read(s, q, st, t);
        }
        assert(s[q + 0] == text[0int + 0]);
        if em.separates() && em.frames.last() {
            let br = line_break(style, depth);
            lemma_holds_split(s, p, seq![COMMA], br);
            assert(s[p + 0] == seq![COMMA][0int + 0]);
            lemma_skip_ws_over(s, p + 1, br);
            assert(skip_ws(s, p) == p);
            assert(skip_ws(s, p + 1) == q);
        } else {
            lemma_skip_ws_over(s, p, lead);
            assert(skip_ws(s, p) == q);
        }
    }
}

/// What is rendered of the first tokens of a stream stands at the start of
/// what is rendered of the whole stream.
pub proof fn lemma_rendered_prefix(style: JSONFormatStyle, ts: Seq<TokenView>, k: int)
    requires
        0 <= k <= ts.len(),
    ensures
        rendered(style, ts.take(k)).is_prefix_of(rendered(style, ts)),
    decreases ts.len() - k,
{
    if k == ts.len() {
        assert(ts.take(k) =~= ts);
    } else {
        lemma_rendered_prefix(style, ts, k + 1);
        assert(ts.take(k + 1).drop_last() =~= ts.take(k));
    }
}

/// The first tokens of a stream that the grammar allows are allowed, and so
/// is the token behind them.
pub proof fn lemma_admitted_prefix(ts: Seq<TokenView>, k: int)
    requires
        admitted(ts),
        0 <= k <= ts.len(),
    ensures
        admitted(ts.take(k)),
        k < ts.len() ==> scan_state_after(ts.take(k)).admits(ts[k]),
    decreases ts.len() - k,
{
    if k == ts.len() {
        assert(ts.take(k) =~= ts);
    } else {
        lemma_admitted_prefix(ts, k + 1);
        assert(ts.take(k + 1).drop_last() =~= ts.take(k));
    }
}

/// Behind a complete value the emitter goes on with a byte that no number
/// would take in.
pub proof fn lemma_emitted_start(
    style: JSONFormatStyle,
    st: ScanState,
    em: EmitState,
    t: TokenView,
)
    requires
        in_step(st, em),
        st.phase == Phase::After,
        st.admits(t),
    ensures
        emitted(style, em, t).len() > 0,
        !continues_number(emitted(style, em, t)[0]),
{
    lemma_text_start(st, t);
}

/// Where the first `k` tokens of `ts` end in what is rendered of `ts`.
pub open spec fn end_of(style: JSONFormatStyle, ts: Seq<TokenView>, k: int) -> int {
    rendered(style, ts.take(k)).len() as int
}

/// What is rendered of a stream holds, where its first `k` tokens end, what
/// the emitter writes for the next one.
pub proof fn lemma_rendered_holds(style: JSONFormatStyle, ts: Seq<TokenView>, k: int)
    requires
        0 <= k < ts.len(),
    ensures
        end_of(style, ts, k + 1) == end_of(style, ts, k) + emitted(
            style,
            state_after(ts.take(k)),
            ts[k],
        ).len(),
        end_of(style, ts, k + 1) <= rendered(style, ts).len(),
        holds_at(
            rendered(style, ts) + seq![LINE_FEED],
            end_of(style, ts, k),
            emitted(style, state_after(ts.take(k)), ts[k]),
        ),
{
    let whole = rendered(style, ts);
    let s = whole + seq![LINE_FEED];
    let first = ts.take(k);
    let next = ts.take(k + 1);
    let p = end_of(style, ts, k);
    let out = emitted(style, state_after(first), ts[k]);
    assert(next.drop_last() =~= first);
    lemma_rendered_prefix(style, ts, k + 1);
    assert(rendered(style, next) == rendered(style, first) + out);
    assert forall|m: int| 0 <= m < out.len() implies #[trigger] s[p + m] == out[0int + m] by {
        assert(s[p + m] == whole[p + m]);
        assert(whole[p + m] == rendered(style, next)[p + m]);
    }
}

/// In what is rendered of a document, a number is followed by a byte that
/// no number would take in.
pub proof fn lemma_number_stops(style: JSONFormatStyle, ts: Seq<TokenView>, k: int)
    requires
        well_formed(ts),
        0 <= k < ts.len(),
        ts[k] is Number,
    ensures
        stops_at(
            rendered(style, ts) + seq![LINE_FEED],
            end_of(style, ts, k + 1),
            |b: u8| !continues_number(b),
        ),
{
    let whole = rendered(style, ts);
    let s = whole + seq![LINE_FEED];
    let behind = end_of(style, ts, k + 1);
    lemma_rendered_holds(style, ts, k);
    if k + 1 < ts.len() {
        let next = ts.take(k + 1);
        lemma_admitted_prefix(ts, k);
        lemma_admitted_prefix(ts, k + 1);
        lemma_in_step_after(next);
        assert(next.drop_last() =~= ts.take(k));
        lemma_emitted_start(style, scan_state_after(next), state_after(next), ts[k + 1]);
        lemma_rendered_holds(style, ts, k + 1);
        let out2 = emitted(style, state_after(next), ts[k + 1]);
        assert(s[behind + 0] == out2[0int + 0]);
    } else {
        assert(ts.take(k + 1) =~= ts);
        assert(s[behind] == LINE_FEED);
    }
}

/// Scanning goes on alike from two offsets with nothing but whitespace
/// between them.
pub proof fn lemma_scan_from_skips(s: Seq<u8>, e: int, w: Seq<u8>, st: ScanState)
    requires
        holds_at(s, e, w),
        all_ws(w),
    ensures
        scan_from(s, e, st) == scan_from(s, e + w.len(), st),
{
    reveal(next_step);
    lemma_skip_ws_over(s, e, w);
    assert(next_step(s, e, st) == next_step(s, e + w.len(), st));
}

/// A step that yields a token, written out for the whole scan.
pub proof fn lemma_scan_from_token(
    s: Seq<u8>,
    p: int,
    st: ScanState,
    t: TokenView,
    e: int,
    st2: ScanState,
)
    requires
        0 <= p <= s.len(),
        next_step(s, p, st) == Step::Token(t, e, st2),
    ensures
        scan_from(s, p, st) == (Scan {
            tokens: seq![t] + scan_from(s, e, st2).tokens,
            fault: scan_from(s, e, st2).fault,
        }),
{
    lemma_step_bounds(s, p, st);
}

/// Behind a complete document, a line feed ends the scan.
pub proof fn lemma_scan_from_end(s: Seq<u8>, p: int, st: ScanState)
    requires
        0 <= p,
        p + 1 == s.len(),
        s[p] == LINE_FEED,
        st.complete(),
    ensures
        scan_from(s, p, st) == (Scan { tokens: Seq::empty(), fault: None }),
{
    reveal(next_step);
    assert(skip_ws(s, p + 1) == p + 1);
    assert(skip_ws(s, p) == p + 1);
}

/// An input that holds what the emitter writes for a token holds, behind
/// what the scanner takes of it, nothing but whitespace.
pub proof fn lemma_gap_held(
    s: Seq<u8>,
    p: int,
    style: JSONFormatStyle,
    em: EmitState,
    t: TokenView,
)
    requires
        holds_at(s, p, emitted(style, em, t)),
    ensures
        p + read_len(style, em, t) <= s.len(),
        forall|st: ScanState|
            scan_from(s, p + read_len(style, em, t), st) == #[trigger] scan_from(
                s,
                p + emitted(style, em, t).len(),
                st,
            ),
{
    let out = emitted(style, em, t);
    let e = p + read_len(style, em, t);
    let gap = if t is Key {
        key_gap(style)
    } else {
        Seq::<u8>::empty()
    };
    lemma_line_break_ws(style, 0);
    assert(holds_at(s, e, gap)) by {
        assert forall|m: int| 0 <= m < gap.len() implies #[trigger] s[e + m] == gap[0int
            + m] by {
            assert(s[p + (e - p + m)] == out[0int + (e - p + m)]);
        }
    }
    assert forall|st: ScanState|
        scan_from(s, e, st) == #[trigger] scan_from(s, p + out.len(), st) by {
        lemma_scan_from_skips(s, e, gap, st);
    }
}

/// What the scanner finds in what was rendered of the tokens `ts`, from
/// where the first `k` of them end.
#[verifier::opaque]
pub open spec fn rest_from(style: JSONFormatStyle, ts: Seq<TokenView>, k: int) -> Scan {
    scan_from(
        rendered(style, ts) + seq![LINE_FEED],
        end_of(style, ts, k),
        scan_state_after(ts.take(k)),
    )
}

/// In what was rendered of a document's tokens, the scanner finds the
/// token `ts[k]` where the first `k` tokens end, and goes on from where the
/// first `k + 1` end.
pub proof fn lemma_scan_rendered_step(style: JSONFormatStyle, ts: Seq<TokenView>, k: int)
    requires
        well_formed(ts),
        0 <= k < ts.len(),
    ensures
        rest_from(style, ts, k) == (Scan {
            tokens: seq![ts[k]] + rest_from(style, ts, k + 1).tokens,
            fault: rest_from(style, ts, k + 1).fault,
        }),
{
    reveal(rest_from);
    let s = rendered(style, ts) + seq![LINE_FEED];
    let first = ts.take(k);
    let p = end_of(style, ts, k);
    let st = scan_state_after(first);
    let t = ts[k];
    let em = state_after(first);
    assert(ts.take(k + 1).drop_last() =~= first);
    lemma_admitted_prefix(ts, k);
    lemma_in_step_after(first);
    lemma_rendered_holds(style, ts, k);
    if t is Number {
        lemma_number_stops(style, ts, k);
    }
    lemma_reads_emitted(s, p, st, em, style, t);
    lemma_gap_held(s, p, style, em, t);
    lemma_scan_from_token(s, p, st, t, p + read_len(style, em, t), st.advance(t));
}

/// Behind what was rendered of a document's tokens the scanner finds the
/// end of the document.
pub proof fn lemma_scan_rendered_end(style: JSONFormatStyle, ts: Seq<TokenView>)
    requires
        well_formed(ts),
    ensures
        rest_from(style, ts, ts.len() as int) == (Scan { tokens: Seq::empty(), fault: None }),
{
    reveal(rest_from);
    assert(ts.take(ts.len() as int) =~= ts);
    lemma_scan_from_end(
        rendered(style, ts) + seq![LINE_FEED],
        end_of(style, ts, ts.len() as int),
        scan_state_after(ts),
    );
}

/// Scanning what was rendered of a document's tokens, from where the first
/// `k` of them end, yields the others.
pub proof fn lemma_scan_rendered_from(style: JSONFormatStyle, ts: Seq<TokenView>, k: int)
    requires
        well_formed(ts),
        0 <= k <= ts.len(),
    ensures
        rest_from(style, ts, k) == (Scan { tokens: ts.skip(k), fault: None }),
    decreases ts.len() - k,
{
    if k == ts.len() {
        lemma_scan_rendered_end(style, ts);
        assert(ts.skip(k) =~= Seq::<TokenView>::empty());
    } else {
        lemma_scan_rendered_step(style, ts, k);
        lemma_scan_rendered_from(style, ts, k + 1);
        assert(ts.skip(k) =~= seq![ts[k]] + ts.skip(k + 1));
    }
}

/// Scanning what was rendered of a document's tokens, with a line feed
/// behind it, yields those tokens again, whatever the style.
pub proof fn lemma_scan_rendered(style: JSONFormatStyle, ts: Seq<TokenView>)
    requires
        well_formed(ts),
    ensures
        scan(rendered(style, ts) + seq![LINE_FEED]) == (Scan { tokens: ts, fault: None }),
{
    reveal(rest_from);
    lemma_scan_rendered_from(style, ts, 0);
    assert(ts.take(0) =~= Seq::<TokenView>::empty());
    assert(ts.skip(0) =~= ts);
}

/// Transcoding keeps the document: the output of a document is a document
/// again, and scanning it yields the same tokens in the same order, each
/// key, string and number with the very bytes that it had in the input.
pub proof fn theorem_tokens_kept(d: Seq<u8>, style: JSONFormatStyle)
    requires
        is_document(d),
    ensures
        is_document(transcoded(d, style)),
        scan(transcoded(d, style)) == scan(d),
{
    lemma_document_well_formed(d);
    lemma_scan_rendered(style, scan(d).tokens);
}

/// Transcoding is idempotent: output that is transcoded again in the same
/// style comes out as it went in, byte for byte.
pub proof fn theorem_idempotent(d: Seq<u8>, style: JSONFormatStyle)
    requires
        is_document(d),
    ensures
        transcoded(transcoded(d, style), style) == transcoded(d, style),
{
    theorem_tokens_kept(d, style);
}

} // verus!
