//! The value scanner: a forward-only tokenizer that checks the grammar of
//! JSON as it goes and never builds a tree.

use vstd::prelude::*;
use crate::error::{ErrorKind, TranscodeError};
use crate::lexical::{
    CLOSE_BRACE, CLOSE_BRACKET, COLON, COMMA, is_decimal_digit, is_digit,
    lemma_number_end_bounds, lemma_skip_ws_bounds, lemma_string_end_bounds,
    lemma_word_end_bounds, LOWER_A, LOWER_E, LOWER_F, LOWER_L, LOWER_N, LOWER_R, LOWER_S,
    LOWER_T, LOWER_U, MINUS, number_end, OPEN_BRACE, OPEN_BRACKET, QUOTE, scan_number,
    scan_string, scan_word, skip_whitespace, skip_ws, string_end, word_end, word_false,
    word_null, word_true,
};
use crate::token::{Token, TokenView};

verus! {

/// What the scanner expects next.
#[derive(Clone, Copy, Debug, PartialEq, Eq, Structural)]
pub enum Phase {
    /// A value: at the very start, or behind the colon of a key.
    Value,
    /// The first member of the container just opened, or its closing bracket.
    Open,
    /// Behind a complete value: a comma and the next member, the closing
    /// bracket, or, outside all containers, the end of the input.
    After,
}

/// The scanner's state between two tokens: the open containers from the
/// outermost to the innermost (`true` for an object, `false` for an array),
/// and what is expected next.
pub struct ScanState {
    pub stack: Seq<bool>,
    pub phase: Phase,
}

/// One step of the scanner.
pub enum Step {
    /// A token, the offset behind it, and the state in which to go on.
    Token(TokenView, int, ScanState),
    /// The document is complete and nothing but whitespace follows it.
    Finished,
    /// The input breaks the grammar at the given offset.
    Fault(ErrorKind, int),
}

impl ScanState {
    /// The state before the first token.
    pub open spec fn initial() -> ScanState {
        ScanState { stack: Seq::empty(), phase: Phase::Value }
    }

    pub open spec fn in_object(self) -> bool {
        self.stack.len() > 0 && self.stack.last()
    }

    pub open spec fn in_array(self) -> bool {
        self.stack.len() > 0 && !self.stack.last()
    }

    /// Whether a key is due rather than a value.
    pub open spec fn wants_key(self) -> bool {
        self.in_object() && self.phase != Phase::Value
    }

    /// The byte that closes the innermost container.
    pub open spec fn closer(self) -> u8 {
        if self.in_object() {
            CLOSE_BRACE
        } else {
            CLOSE_BRACKET
        }
    }

    /// The token that closes the innermost container.
    pub open spec fn end_token(self) -> TokenView {
        if self.in_object() {
            TokenView::ObjectEnd
        } else {
            TokenView::ArrayEnd
        }
    }

    /// The state behind the token `t`.
    pub open spec fn advance(self, t: TokenView) -> ScanState {
        match t {
            TokenView::ObjectStart => ScanState {
                stack: self.stack.push(true),
                phase: Phase::Open,
            },
            TokenView::ArrayStart => ScanState {
                stack: self.stack.push(false),
                phase: Phase::Open,
            },
            TokenView::ObjectEnd | TokenView::ArrayEnd => ScanState {
                stack: if self.stack.len() > 0 {
                    self.stack.drop_last()
                } else {
                    self.stack
                },
                phase: Phase::After,
            },
            TokenView::Key(_) => ScanState { stack: self.stack, phase: Phase::Value },
            _ => ScanState { stack: self.stack, phase: Phase::After },
        }
    }
}

/// The first token of the value that starts at `i`, and the offset behind it.
pub open spec fn value_at(s: Seq<u8>, i: int) -> Result<(TokenView, int), (ErrorKind, int)> {
    if i < 0 || i >= s.len() {
        Err((ErrorKind::UnexpectedEnd, s.len() as int))
    } else if s[i] == OPEN_BRACE {
        Ok((TokenView::ObjectStart, i + 1))
    } else if s[i] == OPEN_BRACKET {
        Ok((TokenView::ArrayStart, i + 1))
    } else if s[i] == QUOTE {
        match string_end(s, i + 1) {
            Ok(e) => Ok((TokenView::String(s.subrange(i + 1, e - 1)), e)),
            Err(x) => Err(x),
        }
    } else if s[i] == MINUS || is_digit(s[i]) {
        match number_end(s, i) {
            Ok(e) => Ok((TokenView::Number(s.subrange(i, e)), e)),
            Err(x) => Err(x),
        }
    } else if s[i] == LOWER_T {
        match word_end(s, i, word_true(), 0) {
            Ok(e) => Ok((TokenView::Bool(true), e)),
            Err(x) => Err(x),
        }
    } else if s[i] == LOWER_F {
        match word_end(s, i, word_false(), 0) {
            Ok(e) => Ok((TokenView::Bool(false), e)),
            Err(x) => Err(x),
        }
    } else if s[i] == LOWER_N {
        match word_end(s, i, word_null(), 0) {
            Ok(e) => Ok((TokenView::Null, e)),
            Err(x) => Err(x),
        }
    } else {
        Err((ErrorKind::UnexpectedCharacter, i))
    }
}

/// The key that starts at `i`, with the colon behind it, and the offset
/// behind that colon.
pub open spec fn key_at(s: Seq<u8>, i: int) -> Result<(TokenView, int), (ErrorKind, int)> {
    if i < 0 || i >= s.len() {
        Err((ErrorKind::UnexpectedEnd, s.len() as int))
    } else if s[i] != QUOTE {
        Err((ErrorKind::UnexpectedCharacter, i))
    } else {
        match string_end(s, i + 1) {
            Ok(e) => {
                let c = skip_ws(s, e);
                if c < 0 || c >= s.len() {
                    Err((ErrorKind::UnexpectedEnd, s.len() as int))
                } else if s[c] != COLON {
                    Err((ErrorKind::UnexpectedCharacter, c))
                } else {
                    Ok((TokenView::Key(s.subrange(i + 1, e - 1)), c + 1))
                }
            },
            Err(x) => Err(x),
        }
    }
}

/// The member that starts at `i`: a key where the state wants one, else the
/// first token of a value.
pub open spec fn member_at(s: Seq<u8>, i: int, st: ScanState) -> Step {
    let found = if st.wants_key() {
        key_at(s, i)
    } else {
        value_at(s, i)
    };
    match found {
        Ok((t, e)) => Step::Token(t, e, st.advance(t)),
        Err((k, at)) => Step::Fault(k, at),
    }
}

/// What the scanner does at the offset `j` of a byte that is no whitespace,
/// or of the end of the input: it reads a member, a closing bracket, or a
/// comma and the member behind it, as its state allows.
pub open spec fn step_at(s: Seq<u8>, j: int, st: ScanState) -> Step {
    match st.phase {
        Phase::Value => member_at(s, j, st),
        Phase::Open => {
            if 0 <= j < s.len() && st.stack.len() > 0 && s[j] == st.closer() {
                Step::Token(st.end_token(), j + 1, st.advance(st.end_token()))
            } else {
                member_at(s, j, st)
            }
        },
        Phase::After => {
            if st.stack.len() == 0 {
                if j < 0 || j >= s.len() {
                    Step::Finished
                } else {
                    Step::Fault(ErrorKind::TrailingGarbage, j)
                }
            } else if j < 0 || j >= s.len() {
                Step::Fault(ErrorKind::UnexpectedEnd, s.len() as int)
            } else if s[j] == st.closer() {
                Step::Token(st.end_token(), j + 1, st.advance(st.end_token()))
            } else if s[j] == COMMA {
                member_at(s, skip_ws(s, j + 1), st)
            } else {
                Step::Fault(ErrorKind::UnexpectedCharacter, j)
            }
        },
    }
}

/// What the scanner does at offset `i` in state `st`: it steps over
/// whitespace and reads what stands behind it.
#[verifier::opaque]
pub open spec fn next_step(s: Seq<u8>, i: int, st: ScanState) -> Step {
    step_at(s, skip_ws(s, i), st)
}

/// The outcome of scanning: the tokens found, and the error that stopped the
/// scanner, if one did.
pub struct Scan {
    pub tokens: Seq<TokenView>,
    pub fault: Option<(ErrorKind, int)>,
}

/// Scanning from offset `i` in state `st` to the end of the document or to
/// the first error.
pub open spec fn scan_from(s: Seq<u8>, i: int, st: ScanState) -> Scan
    decreases s.len() - i,
    when 0 <= i <= s.len()
    via scan_from_decreases
{
    match next_step(s, i, st) {
        Step::Finished => Scan { tokens: Seq::empty(), fault: None },
        Step::Fault(k, at) => Scan { tokens: Seq::empty(), fault: Some((k, at)) },
        Step::Token(t, e, st2) => {
            let rest = scan_from(s, e, st2);
            Scan { tokens: seq![t] + rest.tokens, fault: rest.fault }
        },
    }
}

#[via_fn]
proof fn scan_from_decreases(s: Seq<u8>, i: int, st: ScanState) {
    lemma_step_bounds(s, i, st);
}

/// Scanning a whole input.
pub open spec fn scan(s: Seq<u8>) -> Scan {
    scan_from(s, 0, ScanState::initial())
}

/// Copies the bytes of `input` from `from` up to `to`.
pub fn copy_range(input: &[u8], from: usize, to: usize) -> (r: Vec<u8>)
    requires
        from <= to <= input@.len(),
    ensures
        r@ == input@.subrange(from as int, to as int),
{
    let mut out: Vec<u8> = Vec::new();
    let mut k: usize = from;
    while k < to
        invariant
            from <= k <= to <= input@.len(),
            out@ == input@.subrange(from as int, k as int),
        decreases to - k,
    {
        out.push(input[k]);
        proof {
            assert(out@ =~= input@.subrange(from as int, k + 1));
        }
        k = k + 1;
    }
    out
}

/// Reads the first token of the value that starts at `i`.
pub fn read_value(input: &[u8], i: usize) -> (r: Result<(Token, usize), TranscodeError>)
    requires
        i <= input@.len(),
    ensures
        match r {
            Ok((t, e)) => value_at(input@, i as int) == Ok::<(TokenView, int), (ErrorKind, int)>(
                (t@, e as int),
            ) && i < e <= input@.len(),
            Err(x) => value_at(input@, i as int) == Err::<(TokenView, int), (ErrorKind, int)>(x@),
        },
{
    if i >= input.len() {
        return Err(TranscodeError { kind: ErrorKind::UnexpectedEnd, offset: input.len() });
    }
    let b: u8 = input[i];
    if b == OPEN_BRACE {
        Ok((Token::ObjectStart, i + 1))
    } else if b == OPEN_BRACKET {
        Ok((Token::ArrayStart, i + 1))
    } else if b == QUOTE {
        match scan_string(input, i + 1) {
            Ok(e) => Ok((Token::String(copy_range(input, i + 1, e - 1)), e)),
            Err(x) => Err(x),
        }
    } else if b == MINUS || is_decimal_digit(b) {
        match scan_number(input, i) {
            Ok(e) => Ok((Token::Number(copy_range(input, i, e)), e)),
            Err(x) => Err(x),
        }
    } else if b == LOWER_T {
        let w: [u8; 4] = [LOWER_T, LOWER_R, LOWER_U, LOWER_E];
        assert(w@ =~= word_true());
        match scan_word(input, i, w.as_slice()) {
            Ok(e) => Ok((Token::Bool(true), e)),
            Err(x) => Err(x),
        }
    } else if b == LOWER_F {
        let w: [u8; 5] = [LOWER_F, LOWER_A, LOWER_L, LOWER_S, LOWER_E];
        assert(w@ =~= word_false());
        match scan_word(input, i, w.as_slice()) {
            Ok(e) => Ok((Token::Bool(false), e)),
            Err(x) => Err(x),
        }
    } else if b == LOWER_N {
        let w: [u8; 4] = [LOWER_N, LOWER_U, LOWER_L, LOWER_L];
        assert(w@ =~= word_null());
        match scan_word(input, i, w.as_slice()) {
            Ok(e) => Ok((Token::Null, e)),
            Err(x) => Err(x),
        }
    } else {
        Err(TranscodeError { kind: ErrorKind::UnexpectedCharacter, offset: i })
    }
}

/// Reads the key that starts at `i`, and the colon behind it.
pub fn read_key(input: &[u8], i: usize) -> (r: Result<(Token, usize), TranscodeError>)
    requires
        i <= input@.len(),
    ensures
        match r {
            Ok((t, e)) => key_at(input@, i as int) == Ok::<(TokenView, int), (ErrorKind, int)>(
                (t@, e as int),
            ) && i < e <= input@.len(),
            Err(x) => key_at(input@, i as int) == Err::<(TokenView, int), (ErrorKind, int)>(x@),
        },
{
    if i >= input.len() {
        return Err(TranscodeError { kind: ErrorKind::UnexpectedEnd, offset: input.len() });
    }
    if input[i] != QUOTE {
        return Err(TranscodeError { kind: ErrorKind::UnexpectedCharacter, offset: i });
    }
    match scan_string(input, i + 1) {
        Ok(e) => {
            let c: usize = skip_whitespace(input, e);
            if c >= input.len() {
                Err(TranscodeError { kind: ErrorKind::UnexpectedEnd, offset: input.len() })
            } else if input[c] != COLON {
                Err(TranscodeError { kind: ErrorKind::UnexpectedCharacter, offset: c })
            } else {
                Ok((Token::Key(copy_range(input, i + 1, e - 1)), c + 1))
            }
        },
        Err(x) => Err(x),
    }
}

/// The scanner's state as it is held while scanning.
pub struct Nesting {
    stack: Vec<bool>,
    phase: Phase,
}

impl View for Nesting {
    type V = ScanState;

    closed spec fn view(&self) -> ScanState {
        ScanState { stack: self.stack@, phase: self.phase }
    }
}

impl Nesting {
    /// The state before the first token.
    pub fn new() -> (r: Self)
        ensures
            r@ == ScanState::initial(),
    {
        Nesting { stack: Vec::new(), phase: Phase::Value }
    }

    /// How many containers are open.
    pub fn depth(&self) -> (d: usize)
        ensures
            d == self@.stack.len(),
    {
        self.stack.len()
    }

    /// What is expected next.
    pub fn phase(&self) -> (p: Phase)
        ensures
            p == self@.phase,
    {
        self.phase
    }

    /// Whether the innermost container is an object.
    pub fn in_object(&self) -> (r: bool)
        ensures
            r == self@.in_object(),
    {
        self.stack.len() > 0 && self.stack[self.stack.len() - 1]
    }

    /// The byte that closes the innermost container.
    pub fn closer(&self) -> (r: u8)
        ensures
            r == self@.closer(),
    {
        if self.in_object() {
            CLOSE_BRACE
        } else {
            CLOSE_BRACKET
        }
    }

    /// The token that closes the innermost container.
    pub fn end_token(&self) -> (t: Token)
        ensures
            t@ == self@.end_token(),
    {
        if self.in_object() {
            Token::ObjectEnd
        } else {
            Token::ArrayEnd
        }
    }

    /// Goes on behind the token `t`.
    pub fn advance(&mut self, t: &Token)
        ensures
            final(self)@ == old(self)@.advance(t@),
    {
        match t {
            Token::ObjectStart => {
                self.stack.push(true);
                self.phase = Phase::Open;
            },
            Token::ArrayStart => {
                self.stack.push(false);
                self.phase = Phase::Open;
            },
            Token::ObjectEnd | Token::ArrayEnd => {
                self.stack.pop();
                self.phase = Phase::After;
            },
            Token::Key(_) => {
                self.phase = Phase::Value;
            },
            _ => {
                self.phase = Phase::After;
            },
        }
    }
}

/// Reads the member that starts at `j`.
pub fn read_member(input: &[u8], j: usize, state: &Nesting) -> (r: Result<
    Option<(Token, usize)>,
    TranscodeError,
>)
    requires
        j <= input@.len(),
    ensures
        match member_at(input@, j as int, state@) {
            Step::Token(t, e, _) => r matches Ok(Some((tok, end))) && tok@ == t && end == e && j
                < e <= input@.len(),
            Step::Finished => false,
            Step::Fault(k, at) => r matches Err(x) && x@ == (k, at),
        },
{
    let wants_key: bool = state.in_object() && state.phase() != Phase::Value;
    let found = if wants_key {
        read_key(input, j)
    } else {
        read_value(input, j)
    };
    match found {
        Ok((t, e)) => Ok(Some((t, e))),
        Err(x) => Err(x),
    }
}

/// Reads the token that follows offset `pos` in state `state`, and says
/// where it ends. `Ok(None)` says that the document is complete.
pub fn read_step(input: &[u8], pos: usize, state: &Nesting) -> (r: Result<
    Option<(Token, usize)>,
    TranscodeError,
>)
    requires
        pos <= input@.len(),
    ensures
        match next_step(input@, pos as int, state@) {
            Step::Token(t, e, _) => r matches Ok(Some((tok, end))) && tok@ == t && end == e
                && pos < e <= input@.len(),
            Step::Finished => r matches Ok(None),
            Step::Fault(k, at) => r matches Err(x) && x@ == (k, at),
        },
{
    proof {
        reveal(next_step);
    }
    let len: usize = input.len();
    let j: usize = skip_whitespace(input, pos);
    match state.phase() {
        Phase::Value => read_member(input, j, state),
        Phase::Open => {
            if j < len && state.depth() > 0 && input[j] == state.closer() {
                Ok(Some((state.end_token(), j + 1)))
            } else {
                read_member(input, j, state)
            }
        },
        Phase::After => {
            if state.depth() == 0 {
                if j >= len {
                    Ok(None)
                } else {
                    Err(TranscodeError { kind: ErrorKind::TrailingGarbage, offset: j })
                }
            } else if j >= len {
                Err(TranscodeError { kind: ErrorKind::UnexpectedEnd, offset: len })
            } else if input[j] == state.closer() {
                Ok(Some((state.end_token(), j + 1)))
            } else if input[j] == COMMA {
                let m: usize = skip_whitespace(input, j + 1);
                read_member(input, m, state)
            } else {
                Err(TranscodeError { kind: ErrorKind::UnexpectedCharacter, offset: j })
            }
        },
    }
}

/// A scanner over one input. It yields the document's tokens one by one and
/// holds no more than the stack of the containers that are open.
pub struct Scanner<'a> {
    input: &'a [u8],
    pos: usize,
    nesting: Nesting,
}

impl<'a> Scanner<'a> {
    /// The input.
    pub closed spec fn source(&self) -> Seq<u8> {
        self.input@
    }

    /// The offset behind the last token.
    pub closed spec fn offset(&self) -> int {
        self.pos as int
    }

    /// The state behind the last token.
    pub closed spec fn state(&self) -> ScanState {
        self.nesting@
    }

    /// The offset lies inside the input.
    pub open spec fn wf(&self) -> bool {
        0 <= self.offset() <= self.source().len()
    }

    /// What is still to come: the tokens from here on, and the error that
    /// will stop the scanner, if one will.
    pub open spec fn remaining(&self) -> Scan {
        scan_from(self.source(), self.offset(), self.state())
    }

    /// A scanner at the start of `input`.
    pub fn new(input: &'a [u8]) -> (r: Self)
        ensures
            r.wf(),
            r.source() == input@,
            r.offset() == 0,
            r.state() == ScanState::initial(),
    {
        Scanner { input, pos: 0, nesting: Nesting::new() }
    }

    /// How many containers are open.
    pub fn depth(&self) -> (d: usize)
        ensures
            d == self.state().stack.len(),
    {
        self.nesting.depth()
    }

    /// Reads the next token. `Ok(None)` says that the document is complete;
    /// after it, and after an error, the scanner stands where it stood.
    pub fn next_token(&mut self) -> (r: Result<Option<Token>, TranscodeError>)
        requires
            old(self).wf(),
        ensures
            final(self).wf(),
            final(self).source() == old(self).source(),
            match next_step(old(self).source(), old(self).offset(), old(self).state()) {
                Step::Token(t, e, st) => {
                    &&& r matches Ok(Some(tok)) && tok@ == t
                    &&& final(self).offset() == e
                    &&& final(self).state() == st
                },
                Step::Finished => r matches Ok(None) && *final(self) == *old(self),
                Step::Fault(k, at) => {
                    &&& r matches Err(x) && x@ == (k, at)
                    &&& *final(self) == *old(self)
                },
            },
    {
        proof {
            lemma_step_advances(self.input@, self.pos as int, self.nesting@);
        }
        match read_step(self.input, self.pos, &self.nesting) {
            Ok(Some((t, e))) => {
                self.nesting.advance(&t);
                self.pos = e;
                Ok(Some(t))
            },
            Ok(None) => Ok(None),
            Err(x) => Err(x),
        }
    }
}

/// The state behind a token that a step yields is the state advanced by
/// that token.
pub proof fn lemma_step_advances(s: Seq<u8>, i: int, st: ScanState)
    ensures
        next_step(s, i, st) matches Step::Token(t, _, st2) ==> st2 == st.advance(t),
{
    reveal(next_step);
}

/// A value's first token ends behind its start, and inside the input.
pub proof fn lemma_value_at_bounds(s: Seq<u8>, i: int)
    requires
        0 <= i <= s.len(),
    ensures
        value_at(s, i) matches Ok((_, e)) ==> i < e <= s.len(),
        value_at(s, i) matches Err((_, at)) ==> i <= at <= s.len(),
{
    if i < s.len() {
        lemma_string_end_bounds(s, i + 1);
        lemma_number_end_bounds(s, i);
        lemma_word_end_bounds(s, i, word_true(), 0);
        lemma_word_end_bounds(s, i, word_false(), 0);
        lemma_word_end_bounds(s, i, word_null(), 0);
    }
}

/// A key with its colon ends behind its start, and inside the input.
pub proof fn lemma_key_at_bounds(s: Seq<u8>, i: int)
    requires
        0 <= i <= s.len(),
    ensures
        key_at(s, i) matches Ok((_, e)) ==> i < e <= s.len(),
        key_at(s, i) matches Err((_, at)) ==> i <= at <= s.len(),
{
    if i < s.len() && s[i] == QUOTE {
        lemma_string_end_bounds(s, i + 1);
        if let Ok(e) = string_end(s, i + 1) {
            lemma_skip_ws_bounds(s, e);
        }
    }
}

/// Every step that yields a token moves forward, and no step leaves the
/// input.
pub proof fn lemma_step_bounds(s: Seq<u8>, i: int, st: ScanState)
    requires
        0 <= i <= s.len(),
    ensures
        next_step(s, i, st) matches Step::Token(_, e, _) ==> i < e <= s.len(),
        next_step(s, i, st) matches Step::Fault(_, at) ==> i <= at <= s.len(),
{
    reveal(next_step);
    lemma_skip_ws_bounds(s, i);
    let j = skip_ws(s, i);
    lemma_value_at_bounds(s, j);
    lemma_key_at_bounds(s, j);
    if j < s.len() {
        lemma_skip_ws_bounds(s, j + 1);
        let m = skip_ws(s, j + 1);
        lemma_value_at_bounds(s, m);
        lemma_key_at_bounds(s, m);
    }
}

} // verus!
