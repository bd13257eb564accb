use crate::lemma_log_chain;
use crate::outcome_of;
use crate::Consumer;
use crate::MatchResult;
use crate::Outcome;
use crate::Parser;
use vstd::prelude::*;

verus! {

/// How the commit wrapper maps its inner matcher's outcome: progress becomes
/// `Committed`, success passes through, any failure becomes permanent.
pub open spec fn commit_outcome(r: Outcome) -> Outcome {
    match r {
        Outcome::Undecided => Outcome::Committed,
        Outcome::Committed => Outcome::Committed,
        Outcome::Matched(rest) => Outcome::Matched(rest),
        Outcome::Failed(_) => Outcome::Failed(false),
    }
}

/// Wraps an inner matcher so that, past this point, failure is permanent: the
/// wrapped matcher never again reports a backtrackable failure.
pub struct CommittedParser<P> {
    parser: P,
}

impl<P> CommittedParser<P> {
    /// The wrapped matcher.
    pub closed spec fn inner(&self) -> P {
        self.parser
    }

    pub fn new(parser: P) -> (c: Self)
        ensures
            c.inner() == parser,
    {
        CommittedParser { parser }
    }
}

impl<T: View + ?Sized, P: Parser<T>> Parser<T> for CommittedParser<P> {
    open spec fn inv(&self) -> bool {
        self.inner().inv()
    }

    open spec fn push_spec(
        pre: Self,
        chunk: Seq<char>,
        post: Self,
        emitted: Seq<<T as View>::V>,
        r: Outcome,
    ) -> bool {
        exists|ri: Outcome|
            #[trigger] P::push_spec(pre.inner(), chunk, post.inner(), emitted, ri) && r
                == commit_outcome(ri)
    }

    open spec fn done_spec(
        pre: Self,
        post: Self,
        emitted: Seq<<T as View>::V>,
        matched: bool,
    ) -> bool {
        P::done_spec(pre.inner(), post.inner(), emitted, matched)
    }

    fn push<'a, C: Consumer<T>>(&mut self, value: &'a str, downstream: &mut C) -> (r: MatchResult<
        &'a str,
    >) {
        let ghost pre = *self;
        let inner = self.parser.push(value, downstream);
        let ghost ri = outcome_of(inner);
        let r = match inner {
            MatchResult::Undecided => MatchResult::Committed,
            MatchResult::Committed => MatchResult::Committed,
            MatchResult::Matched(rest) => MatchResult::Matched(rest),
            MatchResult::Failed(_) => MatchResult::Failed(false),
        };
        proof {
            assert(outcome_of(r) == commit_outcome(ri));
            assert(P::push_spec(
                pre.inner(),
                value@,
                self.inner(),
                downstream.log().skip(old(downstream).log().len() as int),
                ri,
            ));
        }
        r
    }

    fn done<C: Consumer<T>>(&mut self, downstream: &mut C) -> (matched: bool) {
        self.parser.done(downstream)
    }
}

/// Runs a left matcher and, once it has matched, feeds the remainder of the
/// same chunk to a right matcher that is committed from the start: a failure
/// after the left side has matched is permanent.
pub struct AndThenParser<L, R> {
    lhs: L,
    rhs: CommittedParser<R>,
    in_lhs: bool,
}

impl<L, R> AndThenParser<L, R> {
    /// The left matcher.
    pub closed spec fn lhs_spec(&self) -> L {
        self.lhs
    }

    /// The right matcher, inside its commit wrapper.
    pub closed spec fn rhs_spec(&self) -> CommittedParser<R> {
        self.rhs
    }

    /// Whether the left matcher is still the active side.
    pub closed spec fn in_lhs_spec(&self) -> bool {
        self.in_lhs
    }

    pub fn new(lhs: L, rhs: R) -> (p: Self)
        ensures
            p.lhs_spec() == lhs,
            p.rhs_spec().inner() == rhs,
            p.in_lhs_spec() == true,
    {
        AndThenParser { lhs, rhs: CommittedParser::new(rhs), in_lhs: true }
    }
}

/// One `push` of the sequencing combinator while its left side is active,
/// named after the left matcher's own step (state `lpost`, emissions `le`,
/// outcome `lr`): anything but a left match passes through; a left match
/// hands the remainder to the committed right side within the same call.
pub open spec fn seq_push_step<T: View + ?Sized, L: Parser<T>, R: Parser<T>>(
    pre: AndThenParser<L, R>,
    chunk: Seq<char>,
    post: AndThenParser<L, R>,
    emitted: Seq<<T as View>::V>,
    r: Outcome,
    lpost: L,
    le: Seq<<T as View>::V>,
    lr: Outcome,
) -> bool {
    &&& L::push_spec(pre.lhs_spec(), chunk, lpost, le, lr)
    &&& match lr {
        Outcome::Matched(rest) => {
            &&& post.lhs_spec() == lpost
            &&& post.in_lhs_spec() == false
            &&& exists|re: Seq<<T as View>::V>|
                #[trigger] <CommittedParser<R> as Parser<T>>::push_spec(
                    pre.rhs_spec(),
                    rest,
                    post.rhs_spec(),
                    re,
                    r,
                ) && emitted == le + re
        },
        _ => {
            &&& post.lhs_spec() == lpost
            &&& post.rhs_spec() == pre.rhs_spec()
            &&& post.in_lhs_spec() == true
            &&& emitted == le
            &&& r == lr
        },
    }
}

/// One `done` of the sequencing combinator, named after what each side's
/// `done` did: both sides are always reset, and the run matched only if both
/// matched.
pub open spec fn seq_done_step<T: View + ?Sized, L: Parser<T>, R: Parser<T>>(
    pre: AndThenParser<L, R>,
    post: AndThenParser<L, R>,
    emitted: Seq<<T as View>::V>,
    matched: bool,
    le: Seq<<T as View>::V>,
    re: Seq<<T as View>::V>,
    lm: bool,
    rm: bool,
) -> bool {
    &&& L::done_spec(pre.lhs_spec(), post.lhs_spec(), le, lm)
    &&& <CommittedParser<R> as Parser<T>>::done_spec(pre.rhs_spec(), post.rhs_spec(), re, rm)
    &&& emitted == le + re
    &&& matched == (lm && rm)
}

impl<T: View + ?Sized, L: Parser<T>, R: Parser<T>> Parser<T> for AndThenParser<L, R> {
    open spec fn inv(&self) -> bool {
        &&& self.lhs_spec().inv()
        &&& self.rhs_spec().inv()
    }

    open spec fn push_spec(
        pre: Self,
        chunk: Seq<char>,
        post: Self,
        emitted: Seq<<T as View>::V>,
        r: Outcome,
    ) -> bool {
        if pre.in_lhs_spec() {
            exists|lpost: L, le: Seq<<T as View>::V>, lr: Outcome|
                #[trigger] seq_push_step(pre, chunk, post, emitted, r, lpost, le, lr)
        } else {
            &&& post.lhs_spec() == pre.lhs_spec()
            &&& post.in_lhs_spec() == false
            &&& <CommittedParser<R> as Parser<T>>::push_spec(
                pre.rhs_spec(),
                chunk,
                post.rhs_spec(),
                emitted,
                r,
            )
        }
    }

    open spec fn done_spec(
        pre: Self,
        post: Self,
        emitted: Seq<<T as View>::V>,
        matched: bool,
    ) -> bool {
        &&& post.in_lhs_spec() == true
        &&& exists|le: Seq<<T as View>::V>, re: Seq<<T as View>::V>, lm: bool, rm: bool|
            #[trigger] seq_done_step(pre, post, emitted, matched, le, re, lm, rm)
    }

    fn push<'a, C: Consumer<T>>(&mut self, value: &'a str, downstream: &mut C) -> (r: MatchResult<
        &'a str,
    >) {
        let ghost pre = *self;
        let ghost log0 = downstream.log();
        if self.in_lhs {
            let inner = self.lhs.push(value, downstream);
            let ghost lpost = self.lhs_spec();
            let ghost le = downstream.log().skip(log0.len() as int);
            let ghost lr = outcome_of(inner);
            proof {
                assert(L::push_spec(pre.lhs_spec(), value@, lpost, le, lr));
            }
            match inner {
                MatchResult::Undecided => {
                    proof {
                        assert(seq_push_step(pre, value@, *self, le, lr, lpost, le, lr));
                    }
                    MatchResult::Undecided
                },
                MatchResult::Committed => {
                    proof {
                        assert(seq_push_step(pre, value@, *self, le, lr, lpost, le, lr));
                    }
                    MatchResult::Committed
                },
                MatchResult::Matched(rest) => {
                    self.in_lhs = false;
                    let ghost log1 = downstream.log();
                    let out = self.rhs.push(rest, downstream);
                    proof {
                        let re = downstream.log().skip(log1.len() as int);
                        lemma_log_chain(log0, log1, downstream.log());
                        assert(<CommittedParser<R> as Parser<T>>::push_spec(
                            pre.rhs_spec(),
                            rest@,
                            self.rhs_spec(),
                            re,
                            outcome_of(out),
                        ));
                        assert(downstream.log().skip(log0.len() as int) == le + re);
                        // tie the left outcome's payload to the remainder handed on
                        assert(match lr {
                            Outcome::Matched(rest2) => rest2 == rest@,
                            _ => false,
                        });
                        assert(seq_push_step(
                            pre,
                            value@,
                            *self,
                            downstream.log().skip(log0.len() as int),
                            outcome_of(out),
                            lpost,
                            le,
                            lr,
                        ));
                        if let MatchResult::Matched(tail) = out {
                            vstd::seq_lib::lemma_seq_skip_of_skip(
                                value@,
                                (value@.len() - rest@.len()) as int,
                                (rest@.len() - tail@.len()) as int,
                            );
                        }
                    }
                    out
                },
                MatchResult::Failed(b) => {
                    proof {
                        assert(seq_push_step(pre, value@, *self, le, lr, lpost, le, lr));
                    }
                    MatchResult::Failed(b)
                },
            }
        } else {
            self.rhs.push(value, downstream)
        }
    }

    fn done<C: Consumer<T>>(&mut self, downstream: &mut C) -> (matched: bool) {
        let ghost pre = *self;
        let ghost log0 = downstream.log();
        let l = self.lhs.done(downstream);
        let ghost log1 = downstream.log();
        let ghost lpost = self.lhs_spec();
        let r = self.rhs.done(downstream);
        self.in_lhs = true;
        proof {
            let le = log1.skip(log0.len() as int);
            let re = downstream.log().skip(log1.len() as int);
            lemma_log_chain(log0, log1, downstream.log());
            assert(L::done_spec(pre.lhs_spec(), lpost, le, l));
            assert(seq_done_step(
                pre,
                *self,
                downstream.log().skip(log0.len() as int),
                l && r,
                le,
                re,
                l,
                r,
            ));
        }
        l && r
    }
}

} // verus!
