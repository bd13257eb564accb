use crate::literal::ConstantParser;
use crate::Consumer;
use crate::DiscardConsumer;
use crate::MatchResult;
use crate::Outcome;
use crate::Parser;
use vstd::prelude::*;
use vstd::string::StrSliceExecFns;
use vstd::string::StringExecFns;

verus! {

/// The buffering adapter's position in a run: nothing accumulated yet, a
/// partial match with the text consumed so far, or a terminal marker.
pub enum BufferedParserState {
    Beginning,
    Middle(Seq<char>),
    EndMatch,
    EndFail(bool),
}

enum BufPhase {
    Beginning,
    Middle,
    EndMatch,
    EndFail(bool),
}

/// Upgrades a non-capturing matcher into one that emits exactly the span of
/// input the inner matcher consumed, copying only when a match straddles a
/// chunk boundary.
pub struct BufferedParser<P> {
    parser: P,
    phase: BufPhase,
    buffer: String,
}

impl<P> BufferedParser<P> {
    /// The wrapped non-capturing matcher.
    pub closed spec fn inner(&self) -> P {
        self.parser
    }

    /// The adapter's own position in a run, with any buffered text.
    pub closed spec fn state_spec(&self) -> BufferedParserState {
        match self.phase {
            BufPhase::Beginning => BufferedParserState::Beginning,
            BufPhase::Middle => BufferedParserState::Middle(self.buffer@),
            BufPhase::EndMatch => BufferedParserState::EndMatch,
            BufPhase::EndFail(b) => BufferedParserState::EndFail(b),
        }
    }
}

impl<P: Parser<()>> BufferedParser<P> {
    pub fn new(parser: P) -> (b: Self)
        requires
            parser.inv(),
        ensures
            b.inv(),
            b.inner() == parser,
            b.state_spec() == BufferedParserState::Beginning,
    {
        BufferedParser { parser, phase: BufPhase::Beginning, buffer: String::new() }
    }
}

/// One `push` of the buffering adapter, named after the inner matcher's own
/// step (emissions `pe`, outcome `pr`): while the inner matcher is undecided
/// the chunk is added to the buffer; on a match the adapter emits the span the
/// inner matcher consumed — straight out of the chunk if the match began in
/// this call, else buffer plus chunk prefix.
pub open spec fn buf_push_step<P: Parser<()>>(
    pre: BufferedParser<P>,
    chunk: Seq<char>,
    post: BufferedParser<P>,
    emitted: Seq<Seq<char>>,
    r: Outcome,
    pe: Seq<()>,
    pr: Outcome,
) -> bool {
    &&& P::push_spec(pre.inner(), chunk, post.inner(), pe, pr)
    &&& match pr {
        Outcome::Undecided => {
            &&& post.state_spec() == buf_grown(pre.state_spec(), chunk)
            &&& emitted == Seq::<Seq<char>>::empty()
            &&& r == Outcome::Undecided
        },
        Outcome::Committed => {
            &&& post.state_spec() == buf_grown(pre.state_spec(), chunk)
            &&& emitted == Seq::<Seq<char>>::empty()
            &&& r == Outcome::Committed
        },
        Outcome::Failed(b) => {
            &&& post.state_spec() == BufferedParserState::EndFail(b)
            &&& emitted == Seq::<Seq<char>>::empty()
            &&& r == Outcome::Failed(b)
        },
        Outcome::Matched(rest) => {
            &&& rest.len() <= chunk.len()
            &&& rest == chunk.skip(chunk.len() - rest.len())
            &&& post.state_spec() == BufferedParserState::EndMatch
            &&& emitted == seq![
                buf_pending(pre.state_spec()) + chunk.take(chunk.len() - rest.len()),
            ]
            &&& r == Outcome::Matched(rest)
        },
    }
}

/// The text accumulated so far: empty at the beginning of a run.
pub open spec fn buf_pending(state: BufferedParserState) -> Seq<char> {
    match state {
        BufferedParserState::Middle(buffer) => buffer,
        _ => Seq::<char>::empty(),
    }
}

/// The state after buffering one more chunk of an undecided match.
pub open spec fn buf_grown(state: BufferedParserState, chunk: Seq<char>) -> BufferedParserState {
    BufferedParserState::Middle(buf_pending(state) + chunk)
}

impl<P: Parser<()>> Parser<str> for BufferedParser<P> {
    open spec fn inv(&self) -> bool {
        self.inner().inv()
    }

    open spec fn push_spec(
        pre: Self,
        chunk: Seq<char>,
        post: Self,
        emitted: Seq<Seq<char>>,
        r: Outcome,
    ) -> bool {
        match pre.state_spec() {
            BufferedParserState::EndMatch => {
                &&& post == pre
                &&& emitted == Seq::<Seq<char>>::empty()
                &&& r == Outcome::Matched(chunk)
            },
            BufferedParserState::EndFail(b) => {
                &&& post == pre
                &&& emitted == Seq::<Seq<char>>::empty()
                &&& r == Outcome::Failed(b)
            },
            _ => exists|pe: Seq<()>, pr: Outcome|
                #[trigger] buf_push_step(pre, chunk, post, emitted, r, pe, pr),
        }
    }

    open spec fn done_spec(pre: Self, post: Self, emitted: Seq<Seq<char>>, matched: bool) -> bool {
        &&& post.state_spec() == BufferedParserState::Beginning
        &&& exists|pe: Seq<()>|
            #[trigger] P::done_spec(pre.inner(), post.inner(), pe, matched)
        &&& emitted == (if matched && pre.state_spec() is Middle {
            seq![buf_pending(pre.state_spec())]
        } else {
            Seq::<Seq<char>>::empty()
        })
    }

    fn push<'a, C: Consumer<str>>(&mut self, value: &'a str, downstream: &mut C) -> (r: MatchResult<
        &'a str,
    >) {
        let ghost pre = *self;
        let ghost log0 = downstream.log();
        match self.phase {
            BufPhase::EndMatch => {
                proof {
                    assert(downstream.log().skip(log0.len() as int) =~= Seq::<Seq<char>>::empty());
                    assert(log0.is_prefix_of(downstream.log()));
                    assert(value@ =~= value@.skip(0));
                }
                MatchResult::Matched(value)
            },
            BufPhase::EndFail(b) => {
                proof {
                    assert(downstream.log().skip(log0.len() as int) =~= Seq::<Seq<char>>::empty());
                    assert(log0.is_prefix_of(downstream.log()));
                }
                MatchResult::Failed(b)
            },
            _ => {
                let in_middle = match self.phase {
                    BufPhase::Middle => true,
                    _ => false,
                };
                let mut discard = DiscardConsumer::new();
                let ghost dlog0 = discard.log();
                let result = self.parser.push(value, &mut discard);
                let ghost pe = discard.log().skip(dlog0.len() as int);
                let ghost pr = crate::outcome_of(result);
                match result {
                    MatchResult::Undecided | MatchResult::Committed => {
                        if in_middle {
                            self.buffer.append(value);
                        } else {
                            self.buffer = String::from_str(value);
                        }
                        self.phase = BufPhase::Middle;
                        proof {
                            assert(self.buffer@ =~= buf_pending(pre.state_spec()) + value@);
                            assert(downstream.log().skip(log0.len() as int)
                                =~= Seq::<Seq<char>>::empty());
                            assert(log0.is_prefix_of(downstream.log()));
                            assert(buf_push_step(
                                pre,
                                value@,
                                *self,
                                downstream.log().skip(log0.len() as int),
                                pr,
                                pe,
                                pr,
                            ));
                        }
                        if matches!(result, MatchResult::Undecided) {
                            MatchResult::Undecided
                        } else {
                            MatchResult::Committed
                        }
                    },
                    MatchResult::Failed(b) => {
                        self.buffer = String::new();
                        self.phase = BufPhase::EndFail(b);
                        proof {
                            assert(downstream.log().skip(log0.len() as int)
                                =~= Seq::<Seq<char>>::empty());
                            assert(log0.is_prefix_of(downstream.log()));
                            assert(buf_push_step(
                                pre,
                                value@,
                                *self,
                                downstream.log().skip(log0.len() as int),
                                pr,
                                pe,
                                pr,
                            ));
                        }
                        MatchResult::Failed(b)
                    },
                    MatchResult::Matched(rest) => {
                        let slen = value.unicode_len();
                        let rlen = rest.unicode_len();
                        let consumed = slen - rlen;
                        let prefix = value.substring_char(0, consumed);
                        proof {
                            assert(prefix@ =~= value@.take(value@.len() - rest@.len()));
                        }
                        if in_middle {
                            self.buffer.append(prefix);
                            downstream.accept(self.buffer.as_str());
                        } else {
                            downstream.accept(prefix);
                        }
                        self.buffer = String::new();
                        self.phase = BufPhase::EndMatch;
                        proof {
                            assert(downstream.log() == log0.push(
                                buf_pending(pre.state_spec()) + value@.take(
                                    value@.len() - rest@.len(),
                                ),
                            )) by {
                                assert(buf_pending(pre.state_spec()) + value@.take(
                                    value@.len() - rest@.len(),
                                ) =~= if pre.state_spec() is Middle {
                                    buf_pending(pre.state_spec()) + prefix@
                                } else {
                                    prefix@
                                });
                            }
                            assert(downstream.log().skip(log0.len() as int) =~= seq![
                                buf_pending(pre.state_spec()) + value@.take(
                                    value@.len() - rest@.len(),
                                ),
                            ]);
                            assert(log0.is_prefix_of(downstream.log()));
                            assert(buf_push_step(
                                pre,
                                value@,
                                *self,
                                downstream.log().skip(log0.len() as int),
                                pr,
                                pe,
                                pr,
                            ));
                        }
                        MatchResult::Matched(rest)
                    },
                }
            },
        }
    }

    fn done<C: Consumer<str>>(&mut self, downstream: &mut C) -> (matched: bool) {
        let ghost pre = *self;
        let ghost log0 = downstream.log();
        let mut discard = DiscardConsumer::new();
        let ghost dlog0 = discard.log();
        let matched = self.parser.done(&mut discard);
        let ghost pe = discard.log().skip(dlog0.len() as int);
        if matched && matches!(self.phase, BufPhase::Middle) {
            downstream.accept(self.buffer.as_str());
            proof {
                assert(downstream.log().skip(log0.len() as int) =~= seq![
                    buf_pending(pre.state_spec()),
                ]);
            }
        } else {
            proof {
                assert(downstream.log().skip(log0.len() as int) =~= Seq::<Seq<char>>::empty());
            }
        }
        self.buffer = String::new();
        self.phase = BufPhase::Beginning;
        proof {
            assert(log0.is_prefix_of(downstream.log()));
            assert(P::done_spec(pre.inner(), self.inner(), pe, matched));
        }
        matched
    }
}

/// A non-capturing matcher that can be upgraded into one that captures the
/// text of its match.
pub trait BufferableMatcher<T: Parser<str>>: Parser<()> {
    fn buffer(self) -> (b: T)
        requires
            self.inv(),
        ensures
            b.inv(),
    ;
}

impl BufferableMatcher<BufferedParser<ConstantParser>> for ConstantParser {
    fn buffer(self) -> (b: BufferedParser<ConstantParser>)
        ensures
            b.inner() == self,
            b.state_spec() == BufferedParserState::Beginning,
    {
        BufferedParser::new(self)
    }
}

} // verus!
