//! The transcoder: the loop that hands each token from the scanner to the
//! emitter as soon as it is read.

use vstd::prelude::*;
use crate::emitter::{append_bytes, emitted, Emitter, lemma_rendered_push, rendered, state_after};
use crate::error::TranscodeError;
use crate::format::JSONFormatStyle;
use crate::lexical::LINE_FEED;
use crate::scanner::{
    copy_range, lemma_step_bounds, Nesting, next_step, read_step, scan, scan_from, Scanner,
    ScanState,
};
use crate::settled::{
    lemma_behind_push, lemma_scan_after_settle, lemma_scan_behind_push, lemma_scan_in_rest,
    lemma_settle_bounds, lemma_settle_extends, lemma_settle_in_rest, lemma_settle_stops,
    lemma_step_in_rest, lemma_step_restricts, scan_behind, settle, settle_from, Settled,
};
use crate::token::{Token, TokenView};
use crate::window::settled;

verus! {

/// Whether `s` is one JSON value, with nothing but whitespace around it.
pub open spec fn is_document(s: Seq<u8>) -> bool {
    scan(s).fault is None
}

/// What transcoding the document `s` yields: its tokens in the style
/// `style`, and one line feed behind them.
pub open spec fn transcoded(s: Seq<u8>, style: JSONFormatStyle) -> Seq<u8> {
    rendered(style, scan(s).tokens) + seq![LINE_FEED]
}

/// Reads `source` token by token and appends the document in the style
/// `style` to `sink`, with one line feed behind it. At the first error the
/// transcoding stops: the sink then holds what was rendered of the tokens
/// before the error, and no line feed.
pub fn transcode(source: &[u8], sink: &mut Vec<u8>, style: JSONFormatStyle) -> (r: Result<
    (),
    TranscodeError,
>)
    ensures
        match r {
            Ok(_) => is_document(source@) && final(sink)@ == old(sink)@ + transcoded(
                source@,
                style,
            ),
            Err(e) => scan(source@).fault == Some(e@) && final(sink)@ == old(sink)@ + rendered(
                style,
                scan(source@).tokens,
            ),
        },
{
    let mut scanner = Scanner::new(source);
    let mut emitter = Emitter::new(style);
    let ghost mut done: Seq<TokenView> = Seq::empty();
    assert(sink@ =~= old(sink)@ + rendered(style, done));
    assert(scan(source@).tokens =~= done + scanner.remaining().tokens);
    loop
        invariant
            scanner.wf(),
            scanner.source() == source@,
            emitter.wf(),
            emitter.style() == style,
            emitter.state() == state_after(done),
            emitter.pending() == Seq::<u8>::empty(),
            sink@ == old(sink)@ + rendered(style, done),
            scan(source@).tokens == done + scanner.remaining().tokens,
            scan(source@).fault == scanner.remaining().fault,
        decreases source@.len() - scanner.offset(),
    {
        proof {
            lemma_step_bounds(scanner.source(), scanner.offset(), scanner.state());
        }
        let ghost before = scanner.remaining();
        match scanner.next_token() {
            Ok(Some(token)) => {
                emitter.emit(&token);
                emitter.flush(sink);
                proof {
                    let longer = done.push(token@);
                    assert(longer.drop_last() =~= done);
                    assert(before.tokens == seq![token@] + scanner.remaining().tokens);
                    assert(done + before.tokens =~= longer + scanner.remaining().tokens);
                    assert(sink@ =~= old(sink)@ + rendered(style, longer));
                    done = longer;
                }
            },
            Ok(None) => {
                sink.push(LINE_FEED);
                proof {
                    assert(done + before.tokens =~= done);
                    assert(sink@ =~= old(sink)@ + transcoded(source@, style));
                }
                return Ok(());
            },
            Err(e) => {
                proof {
                    assert(done + before.tokens =~= done);
                }
                return Err(e);
            },
        }
    }
}

/// A transcoder for input that arrives in pieces. It holds the bytes of the
/// token that the input received so far breaks off in, and the state of the
/// scanner and of the emitter; what it has settled it has written.
pub struct Transcoder {
    emitter: Emitter,
    nesting: Nesting,
    buffer: Vec<u8>,
    base: usize,
    failed: Option<TranscodeError>,
    fed: Ghost<Seq<u8>>,
}

impl Transcoder {
    /// The style, fixed when the transcoder was made.
    pub closed spec fn style(&self) -> JSONFormatStyle {
        self.emitter.style()
    }

    /// All the input received so far.
    pub closed spec fn received(&self) -> Seq<u8> {
        self.fed@
    }

    /// How many bytes of the input the transcoder holds.
    pub closed spec fn held(&self) -> nat {
        self.buffer@.len()
    }

    /// How many bytes of the input are still to be held: those behind the
    /// settled part, and none once an error has settled.
    pub open spec fn unsettled(&self) -> int {
        if settle(self.received()).fault is Some {
            0
        } else {
            self.received().len() - settle(self.received()).offset
        }
    }

    /// All that was written so far: the settled tokens of the input
    /// received, in the transcoder's style.
    pub open spec fn written(&self) -> Seq<u8> {
        rendered(self.style(), settle(self.received()).tokens)
    }

    /// The emitter is ready for the token behind the tokens `done`.
    spec fn ready(&self, done: Seq<TokenView>) -> bool {
        &&& self.emitter.wf()
        &&& self.emitter.pending() == Seq::<u8>::empty()
        &&& self.emitter.state() == state_after(done)
    }

    /// The buffer holds the input from offset `base` on.
    spec fn holds_rest(&self) -> bool {
        &&& self.base + self.buffer@.len() == self.fed@.len()
        &&& self.fed@.len() <= usize::MAX
        &&& self.buffer@ == self.fed@.skip(self.base as int)
    }

    /// The transcoder has written the settled tokens of its input and holds
    /// the input from where they end.
    pub closed spec fn wf(&self) -> bool {
        &&& self.ready(settle(self.fed@).tokens)
        &&& match self.failed {
            Some(e) => settle(self.fed@).fault == Some(e@),
            None => {
                &&& settle(self.fed@) == Settled::none(self.base as int, self.nesting@).behind(
                    settle(self.fed@).tokens,
                )
                &&& self.holds_rest()
            },
        }
    }

    /// A transcoder that has received nothing.
    pub fn new(style: JSONFormatStyle) -> (r: Self)
        ensures
            r.wf(),
            r.style() == style,
            r.received() == Seq::<u8>::empty(),
            r.written() == Seq::<u8>::empty(),
            r.held() == 0,
    {
        let r = Transcoder {
            emitter: Emitter::new(style),
            nesting: Nesting::new(),
            buffer: Vec::new(),
            base: 0,
            failed: None,
            fed: Ghost(Seq::empty()),
        };
        proof {
            lemma_step_bounds(r.fed@, 0, ScanState::initial());
            assert(r.buffer@ =~= r.fed@.skip(0));
            assert(settle(r.fed@).tokens =~= Seq::<TokenView>::empty());
            lemma_behind_push(settle(r.fed@).tokens, TokenView::Null, settle(r.fed@));
        }
        r
    }

    /// Writes one token and goes on behind it.
    fn put(&mut self, token: &Token, sink: &mut Vec<u8>, Ghost(done): Ghost<Seq<TokenView>>)
        requires
            old(self).ready(done),
        ensures
            final(self).ready(done.push(token@)),
            final(self).emitter.style() == old(self).emitter.style(),
            final(self).nesting@ == old(self).nesting@.advance(token@),
            final(self).buffer == old(self).buffer,
            final(self).base == old(self).base,
            final(self).failed == old(self).failed,
            final(self).fed == old(self).fed,
            final(sink)@ == old(sink)@ + emitted(
                old(self).emitter.style(),
                state_after(done),
                token@,
            ),
            rendered(old(self).emitter.style(), done.push(token@)) == rendered(
                old(self).emitter.style(),
                done,
            ) + emitted(old(self).emitter.style(), state_after(done), token@),
    {
        self.emitter.emit(token);
        self.emitter.flush(sink);
        self.nesting.advance(token);
        proof {
            lemma_rendered_push(old(self).emitter.style(), done, token@);
        }
    }

    /// Takes in the next piece of the input and appends to `sink` what it
    /// settles: the tokens that end before the end of the input received so
    /// far, in the transcoder's style. It goes on holding only the bytes
    /// behind the last of them. An error that shows before the end of the
    /// input is returned, now and for every piece that follows.
    pub fn feed(&mut self, chunk: &[u8], sink: &mut Vec<u8>) -> (r: Result<(), TranscodeError>)
        requires
            old(self).wf(),
            old(self).received().len() + chunk@.len() <= usize::MAX,
        ensures
            final(self).wf(),
            final(self).style() == old(self).style(),
            final(self).received() == old(self).received() + chunk@,
            final(self).held() <= old(self).held() + chunk@.len(),
            r is Ok ==> final(self).held() == final(self).unsettled(),
            old(self).written().is_prefix_of(final(self).written()),
            final(sink)@ == old(sink)@ + final(self).written().skip(
                old(self).written().len() as int,
            ),
            match r {
                Ok(_) => settle(final(self).received()).fault is None,
                Err(e) => {
                    &&& settle(final(self).received()).fault == Some(e@)
                    &&& e.offset < final(self).received().len()
                    &&& settle(old(self).received()).fault is None ==> old(self).received().len()
                        <= e.offset
                },
            },
    {
        let ghost fed0 = self.fed@;
        let ghost fed1 = fed0 + chunk@;
        let ghost style = self.emitter.style();
        let ghost out0 = rendered(style, settle(fed0).tokens);
        let ghost base = self.base as int;
        let ghost st0 = self.nesting@;
        proof {
            lemma_settle_extends(fed0, chunk@, 0, ScanState::initial());
            lemma_settle_bounds(fed0, 0, ScanState::initial());
            if self.failed is None {
                lemma_settle_stops(fed0, 0, ScanState::initial());
            }
        }
        if let Some(e) = self.failed {
            self.fed = Ghost(fed1);
            proof {
                assert(out0.skip(out0.len() as int) =~= Seq::<u8>::empty());
                assert(sink@ =~= old(sink)@ + Seq::<u8>::empty());
            }
            return Err(e);
        }
        append_bytes(&mut self.buffer, chunk);
        self.fed = Ghost(fed1);
        assert(self.buffer@ =~= fed1.skip(base));
        let len: usize = self.buffer.len();
        let mut pos: usize = 0;
        let ghost mut done: Seq<TokenView> = settle(fed0).tokens;
        let ghost mut delta: Seq<u8> = Seq::empty();
        proof {
            assert(sink@ =~= old(sink)@ + delta);
            assert(rendered(style, done) =~= out0 + delta);
        }
        loop
            invariant_except_break
                self.failed is None,
                settle(fed1) == settle_from(fed1, base + pos, self.nesting@).behind(done),
            invariant
                self.ready(done),
                self.holds_rest(),
                self.emitter.style() == style,
                self.fed@ == fed1,
                fed1 == fed0 + chunk@,
                self.base == base,
                base <= fed0.len(),
                len == self.buffer@.len(),
                pos <= len,
                sink@ == old(sink)@ + delta,
                rendered(style, done) == out0 + delta,
                !settled(next_step(fed0, base, st0), fed0.len() as int),
                pos == 0 ==> self.nesting@ == st0,
                pos > 0 ==> fed0.len() <= base + pos,
            ensures
                match self.failed {
                    Some(e) => settle(fed1).fault == Some(e@) && settle(fed1).tokens == done
                        && fed0.len() <= e.offset < fed1.len(),
                    None => settle(fed1) == Settled::none(base + pos, self.nesting@).behind(done)
                        && settle(fed1).tokens == done,
                },
            decreases len - pos,
        {
            proof {
                lemma_settle_in_rest(fed1, base, pos as int, self.nesting@);
                lemma_step_in_rest(fed1, base, pos as int, self.nesting@);
                lemma_behind_push(
                    done,
                    TokenView::Null,
                    settle_from(fed1, base + pos, self.nesting@),
                );
                if pos == 0 && settled(next_step(fed1, base, st0), fed0.len() as int) {
                    lemma_step_restricts(fed0, chunk@, base, st0);
                }
            }
            match read_step(self.buffer.as_slice(), pos, &self.nesting) {
                Ok(Some((token, end))) => {
                    if end < len {
                        proof {
                            lemma_behind_push(
                                done,
                                token@,
                                settle_from(fed1, base + end, self.nesting@.advance(token@)),
                            );
                        }
                        self.put(&token, sink, Ghost(done));
                        proof {
                            let more = emitted(style, state_after(done), token@);
                            assert(out0 + delta + more =~= out0 + (delta + more));
                            assert(old(sink)@ + delta + more =~= old(sink)@ + (delta + more));
                            done = done.push(token@);
                            delta = delta + more;
                        }
                        pos = end;
                    } else {
                        break ;
                    }
                },
                Ok(None) => {
                    break ;
                },
                Err(x) => {
                    if x.offset < len {
                        self.failed = Some(
                            TranscodeError { kind: x.kind, offset: self.base + x.offset },
                        );
                    }
                    break ;
                },
            }
        }
        proof {
            assert(rendered(style, done).skip(out0.len() as int) =~= delta);
        }
        match self.failed {
            Some(e) => Err(e),
            None => {
                self.buffer = copy_range(self.buffer.as_slice(), pos, len);
                self.base = self.base + pos;
                proof {
                    assert(self.buffer@ =~= fed1.skip(base + pos));
                }
                Ok(())
            },
        }
    }

    /// Ends the input: reads what is left as the end of the document and
    /// appends to `sink` what follows of it, with one line feed behind it.
    /// All that was written is then the transcoded document; or, where the
    /// input is none, what was rendered of the tokens before the error.
    pub fn finish(self, sink: &mut Vec<u8>) -> (r: Result<(), TranscodeError>)
        requires
            self.wf(),
        ensures
            match r {
                Ok(_) => {
                    &&& is_document(self.received())
                    &&& self.written().is_prefix_of(transcoded(self.received(), self.style()))
                    &&& final(sink)@ == old(sink)@ + transcoded(
                        self.received(),
                        self.style(),
                    ).skip(self.written().len() as int)
                },
                Err(e) => {
                    &&& scan(self.received()).fault == Some(e@)
                    &&& settle(self.received()).fault is None ==> e.offset
                        == self.received().len()
                    &&& self.written().is_prefix_of(
                        rendered(self.style(), scan(self.received()).tokens),
                    )
                    &&& final(sink)@ == old(sink)@ + rendered(
                        self.style(),
                        scan(self.received()).tokens,
                    ).skip(self.written().len() as int)
                },
            },
    {
        let ghost fed = self.fed@;
        let ghost style = self.emitter.style();
        let ghost out0 = rendered(style, settle(fed).tokens);
        let ghost base = self.base as int;
        let ghost st0 = self.nesting@;
        proof {
            lemma_scan_after_settle(fed, 0, ScanState::initial());
            lemma_settle_bounds(fed, 0, ScanState::initial());
            if self.failed is None {
                lemma_settle_stops(fed, 0, ScanState::initial());
            }
        }
        if let Some(e) = self.failed {
            proof {
                assert(out0.skip(out0.len() as int) =~= Seq::<u8>::empty());
                assert(sink@ =~= old(sink)@ + Seq::<u8>::empty());
            }
            return Err(e);
        }
        let mut this = self;
        let len: usize = this.buffer.len();
        let mut pos: usize = 0;
        let mut outcome: Result<(), TranscodeError> = Ok(());
        let ghost mut done: Seq<TokenView> = settle(fed).tokens;
        let ghost mut delta: Seq<u8> = Seq::empty();
        proof {
            assert(sink@ =~= old(sink)@ + delta);
            assert(rendered(style, done) =~= out0 + delta);
        }
        loop
            invariant_except_break
                outcome is Ok,
                scan(fed) == scan_behind(done, scan_from(fed, base + pos, this.nesting@)),
            invariant
                this.ready(done),
                this.holds_rest(),
                this.emitter.style() == style,
                this.fed@ == fed,
                this.base == base,
                len == this.buffer@.len(),
                pos <= len,
                sink@ == old(sink)@ + delta,
                rendered(style, done) == out0 + delta,
                !settled(next_step(fed, base, st0), fed.len() as int),
                pos == 0 ==> this.nesting@ == st0,
                pos > 0 ==> pos == len,
            ensures
                scan(fed).tokens == done,
                match outcome {
                    Ok(_) => scan(fed).fault is None,
                    Err(e) => scan(fed).fault == Some(e@) && e.offset == fed.len(),
                },
            decreases len - pos,
        {
            proof {
                lemma_scan_in_rest(fed, base, pos as int, this.nesting@);
                lemma_step_in_rest(fed, base, pos as int, this.nesting@);
                lemma_scan_behind_push(
                    done,
                    TokenView::Null,
                    scan_from(fed, base + pos, this.nesting@),
                );
            }
            match read_step(this.buffer.as_slice(), pos, &this.nesting) {
                Ok(Some((token, end))) => {
                    proof {
                        lemma_scan_behind_push(
                            done,
                            token@,
                            scan_from(fed, base + end, this.nesting@.advance(token@)),
                        );
                    }
                    this.put(&token, sink, Ghost(done));
                    proof {
                        let more = emitted(style, state_after(done), token@);
                        assert(out0 + delta + more =~= out0 + (delta + more));
                        assert(old(sink)@ + delta + more =~= old(sink)@ + (delta + more));
                        done = done.push(token@);
                        delta = delta + more;
                    }
                    pos = end;
                },
                Ok(None) => {
                    break ;
                },
                Err(x) => {
                    outcome = Err(TranscodeError { kind: x.kind, offset: this.base + x.offset });
                    break ;
                },
            }
        }
        match outcome {
            Ok(_) => {
                sink.push(LINE_FEED);
                proof {
                    let all = transcoded(fed, style);
                    assert(all =~= out0 + (delta + seq![LINE_FEED]));
                    assert(all.skip(out0.len() as int) =~= delta + seq![LINE_FEED]);
                    assert(sink@ =~= old(sink)@ + (delta + seq![LINE_FEED]));
                }
                Ok(())
            },
            Err(e) => {
                proof {
                    assert(rendered(style, done).skip(out0.len() as int) =~= delta);
                }
                Err(e)
            },
        }
    }
}

} // verus!
