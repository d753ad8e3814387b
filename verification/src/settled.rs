//! Scanning input that arrives in pieces: the tokens that are settled once
//! a piece is in, whatever pieces follow.

use vstd::prelude::*;
use crate::error::ErrorKind;
use crate::scanner::{
    lemma_step_advances, lemma_step_bounds, next_step, Scan, scan, scan_from, ScanState, Step,
};
use crate::token::TokenView;
use crate::window::{lemma_next_step_window, settled, shifted_step};

verus! {

/// The settled part of a scan: the tokens that have ended before the end of
/// the input, the offset behind the last of them, the state there, and the
/// error, if one has shown before the end of the input. Input that follows
/// changes none of this.
pub struct Settled {
    pub tokens: Seq<TokenView>,
    pub offset: int,
    pub state: ScanState,
    pub fault: Option<(ErrorKind, int)>,
}

/// The settled part of scanning `s` from offset `i` in state `st`.
pub open spec fn settle_from(s: Seq<u8>, i: int, st: ScanState) -> Settled
    decreases s.len() - i,
    when 0 <= i <= s.len()
    via settle_from_decreases
{
    let step = next_step(s, i, st);
    if settled(step, s.len() as int) {
        match step {
            Step::Token(t, e, st2) => {
                let rest = settle_from(s, e, st2);
                Settled {
                    tokens: seq![t] + rest.tokens,
                    offset: rest.offset,
                    state: rest.state,
                    fault: rest.fault,
                }
            },
            Step::Fault(k, at) => Settled {
                tokens: Seq::empty(),
                offset: i,
                state: st,
                fault: Some((k, at)),
            },
            Step::Finished => Settled { tokens: Seq::empty(), offset: i, state: st, fault: None },
        }
    } else {
        Settled { tokens: Seq::empty(), offset: i, state: st, fault: None }
    }
}

#[via_fn]
proof fn settle_from_decreases(s: Seq<u8>, i: int, st: ScanState) {
    lemma_step_bounds(s, i, st);
}

/// The settled part of scanning `s`.
pub open spec fn settle(s: Seq<u8>) -> Settled {
    settle_from(s, 0, ScanState::initial())
}

/// The settled part ends inside the input.
pub proof fn lemma_settle_bounds(s: Seq<u8>, i: int, st: ScanState)
    requires
        0 <= i <= s.len(),
    ensures
        i <= settle_from(s, i, st).offset <= s.len(),
        settle_from(s, i, st).fault matches Some((_, at)) ==> settle_from(s, i, st).offset <= at
            < s.len(),
    decreases s.len() - i,
{
    lemma_step_bounds(s, i, st);
    match next_step(s, i, st) {
        Step::Token(t, e, st2) => {
            if e < s.len() {
                lemma_settle_bounds(s, e, st2);
            }
        },
        _ => {},
    }
}

/// A step that is settled in an input is the same step in every input that
/// goes on from it.
pub proof fn lemma_step_extends(s: Seq<u8>, x: Seq<u8>, i: int, st: ScanState)
    requires
        0 <= i <= s.len(),
        settled(next_step(s, i, st), s.len() as int),
    ensures
        next_step(s + x, i, st) == next_step(s, i, st),
{
    let t = s + x;
    let n = s.len() - i;
    assert forall|k: int| 0 <= k < n implies #[trigger] t[i + k] == s[i + k] by {}
    lemma_next_step_window(s, i, t, i, n, st);
}

/// A step that bytes of the start of an input have decided is the same step
/// in that start alone.
pub proof fn lemma_step_restricts(s: Seq<u8>, x: Seq<u8>, i: int, st: ScanState)
    requires
        0 <= i <= s.len(),
        settled(next_step(s + x, i, st), s.len() as int),
    ensures
        next_step(s, i, st) == next_step(s + x, i, st),
{
    let t = s + x;
    let n = s.len() - i;
    assert forall|k: int| 0 <= k < n implies #[trigger] s[i + k] == t[i + k] by {}
    lemma_next_step_window(t, i, s, i, n, st);
}

/// Where the settled part ends without an error, the next step is not
/// settled.
pub proof fn lemma_settle_stops(s: Seq<u8>, i: int, st: ScanState)
    requires
        0 <= i <= s.len(),
        settle_from(s, i, st).fault is None,
    ensures
        !settled(
            next_step(s, settle_from(s, i, st).offset, settle_from(s, i, st).state),
            s.len() as int,
        ),
    decreases s.len() - i,
{
    lemma_step_bounds(s, i, st);
    let step = next_step(s, i, st);
    if settled(step, s.len() as int) {
        match step {
            Step::Token(t, e, st2) => {
                lemma_settle_stops(s, e, st2);
            },
            _ => {},
        }
    }
}

/// Input that follows leaves the settled part as it is, and adds to it what
/// settles from where it ended.
pub proof fn lemma_settle_extends(s: Seq<u8>, x: Seq<u8>, i: int, st: ScanState)
    requires
        0 <= i <= s.len(),
    ensures
        ({
            let a = settle_from(s, i, st);
            let b = settle_from(s + x, i, st);
            if a.fault is Some {
                b == a
            } else {
                let c = settle_from(s + x, a.offset, a.state);
                b == (Settled {
                    tokens: a.tokens + c.tokens,
                    offset: c.offset,
                    state: c.state,
                    fault: c.fault,
                })
            }
        }),
    decreases s.len() - i,
{
    lemma_step_bounds(s, i, st);
    let a = settle_from(s, i, st);
    let b = settle_from(s + x, i, st);
    let step = next_step(s, i, st);
    if settled(step, s.len() as int) {
        lemma_step_extends(s, x, i, st);
        match step {
            Step::Token(t, e, st2) => {
                lemma_settle_extends(s, x, e, st2);
                let ra = settle_from(s, e, st2);
                if ra.fault is None {
                    let c = settle_from(s + x, ra.offset, ra.state);
                    assert(seq![t] + (ra.tokens + c.tokens) =~= (seq![t] + ra.tokens) + c.tokens);
                }
            },
            _ => {},
        }
    } else {
        assert(Seq::<TokenView>::empty() + b.tokens =~= b.tokens);
    }
}

/// A scan is its settled part and, unless an error has settled, the scan
/// from where the settled part ends.
pub proof fn lemma_scan_after_settle(s: Seq<u8>, i: int, st: ScanState)
    requires
        0 <= i <= s.len(),
    ensures
        ({
            let a = settle_from(s, i, st);
            let r = scan_from(s, i, st);
            if a.fault is Some {
                r.tokens == a.tokens && r.fault == a.fault
            } else {
                let c = scan_from(s, a.offset, a.state);
                r.tokens == a.tokens + c.tokens && r.fault == c.fault
            }
        }),
    decreases s.len() - i,
{
    lemma_step_bounds(s, i, st);
    let a = settle_from(s, i, st);
    let r = scan_from(s, i, st);
    let step = next_step(s, i, st);
    if settled(step, s.len() as int) {
        match step {
            Step::Token(t, e, st2) => {
                lemma_scan_after_settle(s, e, st2);
                let ra = settle_from(s, e, st2);
                if ra.fault is None {
                    let c = scan_from(s, ra.offset, ra.state);
                    assert(seq![t] + (ra.tokens + c.tokens) =~= (seq![t] + ra.tokens) + c.tokens);
                }
            },
            _ => {},
        }
    } else {
        assert(Seq::<TokenView>::empty() + r.tokens =~= r.tokens);
    }
}

/// What has settled stays: whatever input follows, the tokens settled so
/// far are the first of those that settle then, and the first of the whole
/// scan; and an error that has settled is the error of the whole scan.
pub proof fn theorem_settled_stays(s: Seq<u8>, x: Seq<u8>)
    ensures
        settle(s).tokens.is_prefix_of(settle(s + x).tokens),
        settle(s + x).tokens.is_prefix_of(scan(s + x).tokens),
        settle(s).fault is Some ==> scan(s + x).fault == settle(s).fault && scan(s + x).tokens
            == settle(s).tokens,
{
    let a = settle(s);
    let b = settle(s + x);
    lemma_settle_extends(s, x, 0, ScanState::initial());
    lemma_settle_bounds(s + x, 0, ScanState::initial());
    lemma_scan_after_settle(s + x, 0, ScanState::initial());
    if a.fault is None {
        let c = settle_from(s + x, a.offset, a.state);
        assert((a.tokens + c.tokens).subrange(0, a.tokens.len() as int) =~= a.tokens);
    } else {
        assert(b.tokens.subrange(0, a.tokens.len() as int) =~= a.tokens);
    }
    let r = scan(s + x);
    if b.fault is None {
        let c = scan_from(s + x, b.offset, b.state);
        assert((b.tokens + c.tokens).subrange(0, b.tokens.len() as int) =~= b.tokens);
    } else {
        assert(r.tokens.subrange(0, b.tokens.len() as int) =~= b.tokens);
    }
}

/// A step in the rest of an input is the step in the whole input, moved by
/// what came before the rest.
pub proof fn lemma_step_in_rest(whole: Seq<u8>, base: int, p: int, st: ScanState)
    requires
        0 <= base <= whole.len(),
        0 <= p <= whole.len() - base,
    ensures
        next_step(whole, base + p, st) == shifted_step(next_step(whole.skip(base), p, st), base),
{
    let rest = whole.skip(base);
    let n = rest.len() - p;
    assert forall|k: int| 0 <= k < n implies #[trigger] whole[base + p + k] == rest[p + k] by {}
    lemma_next_step_window(rest, p, whole, base + p, n, st);
}

impl Settled {
    /// This settled part with the tokens `ts` before it.
    pub open spec fn behind(self, ts: Seq<TokenView>) -> Settled {
        Settled {
            tokens: ts + self.tokens,
            offset: self.offset,
            state: self.state,
            fault: self.fault,
        }
    }

    /// The settled part that ends at once, at offset `i` in state `st`.
    pub open spec fn none(i: int, st: ScanState) -> Settled {
        Settled { tokens: Seq::empty(), offset: i, state: st, fault: None }
    }
}

/// The scan `r` with the tokens `ts` before it.
pub open spec fn scan_behind(ts: Seq<TokenView>, r: Scan) -> Scan {
    Scan { tokens: ts + r.tokens, fault: r.fault }
}

/// What settles from offset `base + p`, told by the step in the rest of the
/// input from `base` on.
pub proof fn lemma_settle_in_rest(whole: Seq<u8>, base: int, p: int, st: ScanState)
    requires
        0 <= base <= whole.len(),
        0 <= p <= whole.len() - base,
    ensures
        match next_step(whole.skip(base), p, st) {
            Step::Token(t, e, st2) => {
                &&& p < e <= whole.len() - base
                &&& st2 == st.advance(t)
                &&& settle_from(whole, base + p, st) == if e < whole.len() - base {
                    settle_from(whole, base + e, st2).behind(seq![t])
                } else {
                    Settled::none(base + p, st)
                }
            },
            Step::Finished => settle_from(whole, base + p, st) == Settled::none(base + p, st),
            Step::Fault(k, at) => {
                &&& p <= at <= whole.len() - base
                &&& settle_from(whole, base + p, st) == if at < whole.len() - base {
                    Settled {
                        tokens: Seq::empty(),
                        offset: base + p,
                        state: st,
                        fault: Some((k, at + base)),
                    }
                } else {
                    Settled::none(base + p, st)
                }
            },
        },
{
    lemma_step_in_rest(whole, base, p, st);
    lemma_step_bounds(whole.skip(base), p, st);
    lemma_step_bounds(whole, base + p, st);
    lemma_step_advances(whole.skip(base), p, st);
}

/// The scan from offset `base + p`, told by the step in the rest of the
/// input from `base` on.
pub proof fn lemma_scan_in_rest(whole: Seq<u8>, base: int, p: int, st: ScanState)
    requires
        0 <= base <= whole.len(),
        0 <= p <= whole.len() - base,
    ensures
        match next_step(whole.skip(base), p, st) {
            Step::Token(t, e, st2) => {
                &&& p < e <= whole.len() - base
                &&& st2 == st.advance(t)
                &&& scan_from(whole, base + p, st) == scan_behind(
                    seq![t],
                    scan_from(whole, base + e, st2),
                )
            },
            Step::Finished => scan_from(whole, base + p, st) == (Scan {
                tokens: Seq::empty(),
                fault: None,
            }),
            Step::Fault(k, at) => {
                &&& p <= at <= whole.len() - base
                &&& scan_from(whole, base + p, st) == (Scan {
                    tokens: Seq::empty(),
                    fault: Some((k, at + base)),
                })
            },
        },
{
    lemma_step_in_rest(whole, base, p, st);
    lemma_step_bounds(whole.skip(base), p, st);
    lemma_step_bounds(whole, base + p, st);
    lemma_step_advances(whole.skip(base), p, st);
}

/// One more token before a settled part.
pub proof fn lemma_behind_push(ts: Seq<TokenView>, t: TokenView, a: Settled)
    ensures
        a.behind(seq![t]).behind(ts) == a.behind(ts.push(t)),
        Settled::none(a.offset, a.state).behind(ts).tokens == ts,
{
    assert(ts + (seq![t] + a.tokens) =~= ts.push(t) + a.tokens);
    assert(ts + Seq::<TokenView>::empty() =~= ts);
}

/// One more token before a scan.
pub proof fn lemma_scan_behind_push(ts: Seq<TokenView>, t: TokenView, r: Scan)
    ensures
        scan_behind(ts, scan_behind(seq![t], r)) == scan_behind(ts.push(t), r),
        scan_behind(ts, Scan { tokens: Seq::empty(), fault: r.fault }) == (Scan {
            tokens: ts,
            fault: r.fault,
        }),
{
    assert(ts + (seq![t] + r.tokens) =~= ts.push(t) + r.tokens);
    assert(ts + Seq::<TokenView>::empty() =~= ts);
}

} // verus!
