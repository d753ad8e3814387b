//! The formatting emitter: it renders tokens as bytes in the chosen style and
//! remembers no more than one flag for each open container.

use vstd::prelude::*;
use crate::format::{indent_bytes, JSONFormatStyle};
use crate::lexical::{
    CLOSE_BRACE, CLOSE_BRACKET, COLON, COMMA, LINE_FEED, LOWER_A, LOWER_E, LOWER_F, LOWER_L,
    LOWER_N, LOWER_R, LOWER_S, LOWER_T, LOWER_U, OPEN_BRACE, OPEN_BRACKET, QUOTE, SPACE,
    word_false, word_null, word_true,
};
use crate::token::{Token, TokenView};

verus! {

/// The emitter's state between two tokens: for each open container, from the
/// outermost to the innermost, whether a member of it has been written, and
/// whether the last token was a key.
pub struct EmitState {
    pub frames: Seq<bool>,
    pub after_key: bool,
}

/// `unit`, `n` times over.
pub open spec fn repeat(unit: Seq<u8>, n: nat) -> Seq<u8>
    decreases n,
{
    if n == 0 {
        Seq::empty()
    } else {
        repeat(unit, (n - 1) as nat) + unit
    }
}

/// What separates two lines at depth `depth`: nothing in the compact style,
/// else a line feed and the indentation.
pub open spec fn line_break(style: JSONFormatStyle, depth: nat) -> Seq<u8> {
    match style {
        JSONFormatStyle::Compact => Seq::empty(),
        JSONFormatStyle::Pretty(ind) => seq![LINE_FEED] + repeat(ind.unit(), depth),
    }
}

/// What follows the colon of a key: nothing in the compact style, else one
/// space.
pub open spec fn key_gap(style: JSONFormatStyle) -> Seq<u8> {
    match style {
        JSONFormatStyle::Compact => Seq::empty(),
        JSONFormatStyle::Pretty(_) => seq![SPACE],
    }
}

/// The bytes `b` between quotes.
pub open spec fn quoted(b: Seq<u8>) -> Seq<u8> {
    seq![QUOTE] + b + seq![QUOTE]
}

impl EmitState {
    /// The state before the first token.
    pub open spec fn initial() -> EmitState {
        EmitState { frames: Seq::empty(), after_key: false }
    }

    /// Whether the next member of the innermost container needs a separator
    /// of its own: it does inside a container, unless it is the value of a
    /// key.
    pub open spec fn separates(self) -> bool {
        !self.after_key && self.frames.len() > 0
    }

    /// What precedes the next key or value: behind a key and outside all
    /// containers nothing; else a comma, unless the member is the first, and
    /// the line break.
    pub open spec fn lead(self, style: JSONFormatStyle) -> Seq<u8> {
        if !self.separates() {
            Seq::empty()
        } else if self.frames.last() {
            seq![COMMA] + line_break(style, self.frames.len())
        } else {
            line_break(style, self.frames.len())
        }
    }

    /// What precedes the closing bracket: the line break back to the
    /// parent's depth where the container has a member, else nothing.
    pub open spec fn tail(self, style: JSONFormatStyle) -> Seq<u8> {
        if self.frames.len() > 0 && self.frames.last() {
            line_break(style, (self.frames.len() - 1) as nat)
        } else {
            Seq::empty()
        }
    }

    /// The frames once the next member is written.
    pub open spec fn marked(self) -> Seq<bool> {
        if self.separates() {
            self.frames.update(self.frames.len() - 1, true)
        } else {
            self.frames
        }
    }

    /// The state behind the token `t`.
    pub open spec fn advance(self, t: TokenView) -> EmitState {
        match t {
            TokenView::ObjectStart | TokenView::ArrayStart => EmitState {
                frames: self.marked().push(false),
                after_key: false,
            },
            TokenView::ObjectEnd | TokenView::ArrayEnd => EmitState {
                frames: if self.frames.len() > 0 {
                    self.frames.drop_last()
                } else {
                    self.frames
                },
                after_key: false,
            },
            TokenView::Key(_) => EmitState { frames: self.marked(), after_key: true },
            _ => EmitState { frames: self.marked(), after_key: false },
        }
    }
}

/// The bytes of the token itself, without what separates it from its
/// neighbours.
pub open spec fn token_text(t: TokenView) -> Seq<u8> {
    match t {
        TokenView::ObjectStart => seq![OPEN_BRACE],
        TokenView::ObjectEnd => seq![CLOSE_BRACE],
        TokenView::ArrayStart => seq![OPEN_BRACKET],
        TokenView::ArrayEnd => seq![CLOSE_BRACKET],
        TokenView::Key(b) => quoted(b) + seq![COLON],
        TokenView::String(b) => quoted(b),
        TokenView::Number(b) => b,
        TokenView::Bool(b) => if b {
            word_true()
        } else {
            word_false()
        },
        TokenView::Null => word_null(),
    }
}

/// The bytes that the token `t` adds to the output in state `st`.
pub open spec fn emitted(style: JSONFormatStyle, st: EmitState, t: TokenView) -> Seq<u8> {
    match t {
        TokenView::ObjectEnd | TokenView::ArrayEnd => st.tail(style) + token_text(t),
        TokenView::Key(_) => st.lead(style) + token_text(t) + key_gap(style),
        _ => st.lead(style) + token_text(t),
    }
}

/// The emitter's state behind the tokens `ts`.
pub open spec fn state_after(ts: Seq<TokenView>) -> EmitState
    decreases ts.len(),
{
    if ts.len() == 0 {
        EmitState::initial()
    } else {
        state_after(ts.drop_last()).advance(ts.last())
    }
}

/// The bytes of the tokens `ts` in the style `style`.
pub open spec fn rendered(style: JSONFormatStyle, ts: Seq<TokenView>) -> Seq<u8>
    decreases ts.len(),
{
    if ts.len() == 0 {
        Seq::empty()
    } else {
        rendered(style, ts.drop_last()) + emitted(style, state_after(ts.drop_last()), ts.last())
    }
}

/// One more token behind a stream: what is rendered of it, and the state
/// behind it.
pub proof fn lemma_rendered_push(style: JSONFormatStyle, ts: Seq<TokenView>, t: TokenView)
    ensures
        rendered(style, ts.push(t)) == rendered(style, ts) + emitted(style, state_after(ts), t),
        state_after(ts.push(t)) == state_after(ts).advance(t),
{
    assert(ts.push(t).drop_last() =~= ts);
}

/// Appends `bytes` to `out`.
pub fn append_bytes(out: &mut Vec<u8>, bytes: &[u8])
    ensures
        final(out)@ == old(out)@ + bytes@,
{
    let mut k: usize = 0;
    while k < bytes.len()
        invariant
            k <= bytes@.len(),
            out@ == old(out)@ + bytes@.subrange(0, k as int),
        decreases bytes@.len() - k,
    {
        out.push(bytes[k]);
        assert(out@ =~= old(out)@ + bytes@.subrange(0, k + 1));
        k = k + 1;
    }
    assert(bytes@.subrange(0, k as int) =~= bytes@);
}

/// An emitter in one style. It holds the bytes it has rendered until they
/// are taken from it.
pub struct Emitter {
    style: JSONFormatStyle,
    unit: Vec<u8>,
    frames: Vec<bool>,
    after_key: bool,
    buffer: Vec<u8>,
}

impl Emitter {
    /// The style, fixed when the emitter was made.
    pub closed spec fn style(&self) -> JSONFormatStyle {
        self.style
    }

    /// The state behind the last token.
    pub closed spec fn state(&self) -> EmitState {
        EmitState { frames: self.frames@, after_key: self.after_key }
    }

    /// The bytes rendered and not yet taken.
    pub closed spec fn pending(&self) -> Seq<u8> {
        self.buffer@
    }

    /// The emitter holds the indentation unit of its style.
    pub closed spec fn wf(&self) -> bool {
        match self.style {
            JSONFormatStyle::Compact => true,
            JSONFormatStyle::Pretty(ind) => self.unit@ == ind.unit(),
        }
    }

    /// An emitter before the first token.
    pub fn new(style: JSONFormatStyle) -> (r: Self)
        ensures
            r.wf(),
            r.style() == style,
            r.state() == EmitState::initial(),
            r.pending() == Seq::<u8>::empty(),
    {
        let unit: Vec<u8> = match &style {
            JSONFormatStyle::Compact => Vec::new(),
            JSONFormatStyle::Pretty(ind) => indent_bytes(ind),
        };
        Emitter { style, unit, frames: Vec::new(), after_key: false, buffer: Vec::new() }
    }

    /// Writes the line break for depth `depth`.
    fn write_break(&mut self, depth: usize)
        requires
            old(self).wf(),
        ensures
            final(self).wf(),
            final(self).style() == old(self).style(),
            final(self).state() == old(self).state(),
            final(self).pending() == old(self).pending() + line_break(
                old(self).style(),
                depth as nat,
            ),
    {
        match self.style {
            JSONFormatStyle::Compact => {
                assert(self.buffer@ =~= old(self).buffer@ + Seq::<u8>::empty());
            },
            JSONFormatStyle::Pretty(ind) => {
                self.buffer.push(LINE_FEED);
                let ghost base = self.buffer@;
                let mut k: usize = 0;
                while k < depth
                    invariant
                        k <= depth,
                        self.wf(),
                        self.style == JSONFormatStyle::Pretty(ind),
                        self.style == old(self).style,
                        self.frames == old(self).frames,
                        self.after_key == old(self).after_key,
                        self.buffer@ == base + repeat(ind.unit(), k as nat),
                    decreases depth - k,
                {
                    append_bytes(&mut self.buffer, self.unit.as_slice());
                    k = k + 1;
                    assert(self.buffer@ =~= base + repeat(ind.unit(), k as nat));
                }
                assert(self.buffer@ =~= old(self).buffer@ + (seq![LINE_FEED] + repeat(
                    ind.unit(),
                    depth as nat,
                )));
            },
        }
    }

    /// Writes what precedes a key or a value, and notes that the innermost
    /// container has a member.
    fn begin_member(&mut self)
        requires
            old(self).wf(),
        ensures
            final(self).wf(),
            final(self).style() == old(self).style(),
            final(self).state() == (EmitState {
                frames: old(self).state().marked(),
                after_key: old(self).state().after_key,
            }),
            final(self).pending() == old(self).pending() + old(self).state().lead(
                old(self).style(),
            ),
    {
        let depth: usize = self.frames.len();
        if !self.after_key && depth > 0 {
            if self.frames[depth - 1] {
                self.buffer.push(COMMA);
            }
            self.write_break(depth);
            self.frames.set(depth - 1, true);
            assert(self.buffer@ =~= old(self).buffer@ + old(self).state().lead(old(self).style));
        } else {
            assert(self.buffer@ =~= old(self).buffer@ + Seq::<u8>::empty());
        }
    }

    /// Writes what precedes a closing bracket, and drops the innermost frame.
    fn end_container(&mut self)
        requires
            old(self).wf(),
        ensures
            final(self).wf(),
            final(self).style() == old(self).style(),
            final(self).state().frames == (if old(self).state().frames.len() > 0 {
                old(self).state().frames.drop_last()
            } else {
                old(self).state().frames
            }),
            final(self).pending() == old(self).pending() + old(self).state().tail(
                old(self).style(),
            ),
    {
        let depth: usize = self.frames.len();
        if depth > 0 && self.frames[depth - 1] {
            self.write_break(depth - 1);
        } else {
            assert(self.buffer@ =~= old(self).buffer@ + Seq::<u8>::empty());
        }
        self.frames.pop();
    }

    /// Writes `b` between quotes.
    fn write_quoted(&mut self, b: &Vec<u8>)
        requires
            old(self).wf(),
        ensures
            final(self).wf(),
            final(self).style() == old(self).style(),
            final(self).state() == old(self).state(),
            final(self).pending() == old(self).pending() + quoted(b@),
    {
        self.buffer.push(QUOTE);
        append_bytes(&mut self.buffer, b.as_slice());
        self.buffer.push(QUOTE);
        assert(self.buffer@ =~= old(self).buffer@ + quoted(b@));
    }

    /// Writes a value that is all text: what precedes it, then `text`.
    fn write_scalar(&mut self, text: &[u8])
        requires
            old(self).wf(),
        ensures
            final(self).wf(),
            final(self).style() == old(self).style(),
            final(self).state() == (EmitState {
                frames: old(self).state().marked(),
                after_key: false,
            }),
            final(self).pending() == old(self).pending() + (old(self).state().lead(
                old(self).style(),
            ) + text@),
    {
        self.begin_member();
        append_bytes(&mut self.buffer, text);
        self.after_key = false;
        assert(self.buffer@ =~= old(self).buffer@ + (old(self).state().lead(old(self).style)
            + text@));
    }

    /// Writes an opening bracket and enters its container.
    fn write_open(&mut self, bracket: u8)
        requires
            old(self).wf(),
        ensures
            final(self).wf(),
            final(self).style() == old(self).style(),
            final(self).state() == (EmitState {
                frames: old(self).state().marked().push(false),
                after_key: false,
            }),
            final(self).pending() == old(self).pending() + (old(self).state().lead(
                old(self).style(),
            ) + seq![bracket]),
    {
        self.begin_member();
        self.buffer.push(bracket);
        self.frames.push(false);
        self.after_key = false;
        assert(self.buffer@ =~= old(self).buffer@ + (old(self).state().lead(old(self).style)
            + seq![bracket]));
    }

    /// Writes a closing bracket and leaves its container.
    fn write_close(&mut self, bracket: u8)
        requires
            old(self).wf(),
        ensures
            final(self).wf(),
            final(self).style() == old(self).style(),
            final(self).state() == (EmitState {
                frames: if old(self).state().frames.len() > 0 {
                    old(self).state().frames.drop_last()
                } else {
                    old(self).state().frames
                },
                after_key: false,
            }),
            final(self).pending() == old(self).pending() + (old(self).state().tail(
                old(self).style(),
            ) + seq![bracket]),
    {
        self.end_container();
        self.buffer.push(bracket);
        self.after_key = false;
        assert(self.buffer@ =~= old(self).buffer@ + (old(self).state().tail(old(self).style)
            + seq![bracket]));
    }

    /// Writes a key, its colon and what follows the colon.
    fn write_key(&mut self, b: &Vec<u8>)
        requires
            old(self).wf(),
        ensures
            final(self).wf(),
            final(self).style() == old(self).style(),
            final(self).state() == (EmitState {
                frames: old(self).state().marked(),
                after_key: true,
            }),
            final(self).pending() == old(self).pending() + (old(self).state().lead(
                old(self).style(),
            ) + (quoted(b@) + seq![COLON]) + key_gap(old(self).style())),
    {
        self.begin_member();
        self.write_quoted(b);
        self.buffer.push(COLON);
        match self.style {
            JSONFormatStyle::Compact => {},
            JSONFormatStyle::Pretty(_) => {
                self.buffer.push(SPACE);
            },
        }
        self.after_key = true;
        assert(self.buffer@ =~= old(self).buffer@ + (old(self).state().lead(old(self).style) + (
        quoted(b@) + seq![COLON]) + key_gap(self.style)));
    }

    /// Renders one token.
    pub fn emit(&mut self, token: &Token)
        requires
            old(self).wf(),
        ensures
            final(self).wf(),
            final(self).style() == old(self).style(),
            final(self).state() == old(self).state().advance(token@),
            final(self).pending() == old(self).pending() + emitted(
                old(self).style(),
                old(self).state(),
                token@,
            ),
    {
        match token {
            Token::ObjectStart => self.write_open(OPEN_BRACE),
            Token::ArrayStart => self.write_open(OPEN_BRACKET),
            Token::ObjectEnd => self.write_close(CLOSE_BRACE),
            Token::ArrayEnd => self.write_close(CLOSE_BRACKET),
            Token::Key(b) => self.write_key(b),
            Token::String(b) => {
                self.begin_member();
                self.write_quoted(b);
                self.after_key = false;
                assert(self.buffer@ =~= old(self).buffer@ + (old(self).state().lead(
                    old(self).style,
                ) + quoted(b@)));
            },
            Token::Number(b) => self.write_scalar(b.as_slice()),
            Token::Bool(b) => {
                if *b {
                    let w: [u8; 4] = [LOWER_T, LOWER_R, LOWER_U, LOWER_E];
                    assert(w@ =~= word_true());
                    self.write_scalar(w.as_slice());
                } else {
                    let w: [u8; 5] = [LOWER_F, LOWER_A, LOWER_L, LOWER_S, LOWER_E];
                    assert(w@ =~= word_false());
                    self.write_scalar(w.as_slice());
                }
            },
            Token::Null => {
                let w: [u8; 4] = [LOWER_N, LOWER_U, LOWER_L, LOWER_L];
                assert(w@ =~= word_null());
                self.write_scalar(w.as_slice());
            },
        }
    }

    /// Moves the bytes rendered so far to the end of `sink`.
    pub fn flush(&mut self, sink: &mut Vec<u8>)
        requires
            old(self).wf(),
        ensures
            final(self).wf(),
            final(self).style() == old(self).style(),
            final(self).state() == old(self).state(),
            final(self).pending() == Seq::<u8>::empty(),
            final(sink)@ == old(sink)@ + old(self).pending(),
    {
        sink.append(&mut self.buffer);
    }
}

} // verus!
