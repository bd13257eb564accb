use crate::buffered::buf_pending;
use crate::buffered::buf_push_step;
use crate::buffered::BufferedParser;
use crate::buffered::BufferedParserState;
use crate::class_of;
use crate::combine::commit_outcome;
use crate::combine::CommittedParser;
use crate::combine::seq_done_step;
use crate::combine::seq_push_step;
use crate::literal::lit_done;
use crate::literal::lit_push;
use crate::literal::ConstantParser;
use crate::literal::ConstantParserState;
use crate::AndThenParser;
use crate::Outcome;
use crate::OutcomeClass;
use crate::Parser;
use vstd::prelude::*;

verus! {

/// The protocol laws every matcher must uphold, carried as proof obligations:
/// an implementation proves them once, and generic code — the combinators
/// over arbitrary children — may then rely on them.
///
/// Congruence (`lemma_push_congruence`) is the load-bearing law of the whole
/// design: pushing `a` and then `b` yields the same classification, the same
/// cumulative emissions and an equivalent state as pushing `a + b` in one
/// call, for every split point, so the driver's choice of chunk boundaries is
/// irrelevant. The remaining obligations are the automaton's terminal
/// idempotence, determinism of one step, and `done` resetting to an initial
/// state.
pub trait LawfulParser<T: View + ?Sized>: Parser<T> {
    /// States that no sequence of later calls can tell apart.
    spec fn equiv(&self, other: &Self) -> bool;

    /// The states a fresh instance, or one just reset by `done`, is in.
    spec fn is_initial(&self) -> bool;

    /// Every state is equivalent to itself.
    proof fn lemma_equiv_reflexive(x: Self)
        ensures
            x.equiv(&x),
    ;

    /// Congruence. Only the classification of the last outcome is compared:
    /// a remainder is a view into the chunk just pushed, so splitting the
    /// input differently can move it between chunks; the two remainder
    /// clauses say exactly how it moves.
    proof fn lemma_push_congruence(
        pre: Self,
        a: Seq<char>,
        b: Seq<char>,
        mid: Self,
        post_split: Self,
        e1: Seq<<T as View>::V>,
        e2: Seq<<T as View>::V>,
        r1: Outcome,
        r2: Outcome,
        post_whole: Self,
        e: Seq<<T as View>::V>,
        r: Outcome,
    )
        requires
            pre.inv(),
            Self::push_spec(pre, a, mid, e1, r1),
            Self::push_spec(mid, b, post_split, e2, r2),
            Self::push_spec(pre, a + b, post_whole, e, r),
        ensures
            class_of(r2) == class_of(r),
            e1 + e2 == e,
            post_split.equiv(&post_whole),
            (match (r1, r) {
                (Outcome::Matched(rest1), Outcome::Matched(rest)) => rest == rest1 + b,
                _ => true,
            }),
            (match (r2, r) {
                (Outcome::Matched(rest2), Outcome::Matched(rest)) => (r1 is Undecided
                    || r1 is Committed) ==> rest2 == rest,
                _ => true,
            }),
    ;

    /// One step is a function of the state and the chunk: two equivalent
    /// matchers pushed the same chunk emit the same values, return the same
    /// outcome and stay equivalent.
    proof fn lemma_push_deterministic(
        pre_x: Self,
        pre_y: Self,
        chunk: Seq<char>,
        post_x: Self,
        ex: Seq<<T as View>::V>,
        rx: Outcome,
        post_y: Self,
        ey: Seq<<T as View>::V>,
        ry: Outcome,
    )
        requires
            pre_x.equiv(&pre_y),
            Self::push_spec(pre_x, chunk, post_x, ex, rx),
            Self::push_spec(pre_y, chunk, post_y, ey, ry),
        ensures
            ex == ey,
            rx == ry,
            post_x.equiv(&post_y),
    ;

    /// After a `Matched` outcome, every push before the next `done` returns
    /// the whole chunk as a repeated match, emits nothing and changes nothing.
    proof fn lemma_matched_stays(
        pre: Self,
        chunk: Seq<char>,
        post: Self,
        emitted: Seq<<T as View>::V>,
        rest: Seq<char>,
        chunk2: Seq<char>,
    )
        requires
            Self::push_spec(pre, chunk, post, emitted, Outcome::Matched(rest)),
        ensures
            Self::push_spec(post, chunk2, post, Seq::<<T as View>::V>::empty(), Outcome::Matched(chunk2)),
    ;

    /// After a `Failed` outcome, every push before the next `done` repeats
    /// the same failure, emits nothing and changes nothing.
    proof fn lemma_failed_stays(
        pre: Self,
        chunk: Seq<char>,
        post: Self,
        emitted: Seq<<T as View>::V>,
        backtrack: bool,
        chunk2: Seq<char>,
    )
        requires
            Self::push_spec(pre, chunk, post, emitted, Outcome::Failed(backtrack)),
        ensures
            Self::push_spec(post, chunk2, post, Seq::<<T as View>::V>::empty(), Outcome::Failed(backtrack)),
    ;

    /// `done` always leaves an initial state: the next run starts as a fresh
    /// instance would.
    proof fn lemma_done_initial(pre: Self, post: Self, emitted: Seq<<T as View>::V>, matched: bool)
        requires
            Self::done_spec(pre, post, emitted, matched),
        ensures
            post.is_initial(),
    ;
}

impl LawfulParser<()> for ConstantParser {
    open spec fn equiv(&self, other: &Self) -> bool {
        &&& self.target() == other.target()
        &&& self.state_spec() == other.state_spec()
    }

    open spec fn is_initial(&self) -> bool {
        self.state_spec() == ConstantParserState::AtOffset(0)
    }

    proof fn lemma_equiv_reflexive(x: Self) {
    }

    proof fn lemma_push_congruence(
        pre: Self,
        a: Seq<char>,
        b: Seq<char>,
        mid: Self,
        post_split: Self,
        e1: Seq<()>,
        e2: Seq<()>,
        r1: Outcome,
        r2: Outcome,
        post_whole: Self,
        e: Seq<()>,
        r: Outcome,
    ) {
        lemma_constant_congruence(
            pre,
            a,
            b,
            mid,
            post_split,
            e1,
            e2,
            r1,
            r2,
            post_whole,
            e,
            r,
        );
    }

    proof fn lemma_push_deterministic(
        pre_x: Self,
        pre_y: Self,
        chunk: Seq<char>,
        post_x: Self,
        ex: Seq<()>,
        rx: Outcome,
        post_y: Self,
        ey: Seq<()>,
        ry: Outcome,
    ) {
        lemma_constant_deterministic(pre_x, pre_y, chunk, post_x, ex, rx, post_y, ey, ry);
    }

    proof fn lemma_matched_stays(
        pre: Self,
        chunk: Seq<char>,
        post: Self,
        emitted: Seq<()>,
        rest: Seq<char>,
        chunk2: Seq<char>,
    ) {
        lemma_constant_enters_terminal(pre, chunk, post, emitted, Outcome::Matched(rest));
    }

    proof fn lemma_failed_stays(
        pre: Self,
        chunk: Seq<char>,
        post: Self,
        emitted: Seq<()>,
        backtrack: bool,
        chunk2: Seq<char>,
    ) {
        lemma_constant_enters_terminal(pre, chunk, post, emitted, Outcome::Failed(backtrack));
    }

    proof fn lemma_done_initial(pre: Self, post: Self, emitted: Seq<()>, matched: bool) {
    }
}

/// Congruence, the load-bearing law of the design: pushing `a` and then `b`
/// into a literal matcher yields the same classification, the same cumulative
/// emissions and the same matcher state as pushing `a + b` in one call, for
/// every split point. The driver's choice of chunk boundaries is therefore
/// irrelevant. (Only the classification of the last outcome is compared: a
/// remainder is a view into the chunk just pushed, so splitting the input
/// differently can move it between chunks.)
pub proof fn lemma_constant_congruence(
    pre: ConstantParser,
    a: Seq<char>,
    b: Seq<char>,
    mid: ConstantParser,
    post_split: ConstantParser,
    e1: Seq<()>,
    e2: Seq<()>,
    r1: Outcome,
    r2: Outcome,
    post_whole: ConstantParser,
    e: Seq<()>,
    r: Outcome,
)
    requires
        pre.inv(),
        lit_push(pre, a, mid, e1, r1),
        lit_push(mid, b, post_split, e2, r2),
        lit_push(pre, a + b, post_whole, e, r),
    ensures
        class_of(r2) == class_of(r),
        e1 + e2 == e,
        post_split.state_spec() == post_whole.state_spec(),
        post_split.target() == post_whole.target(),
        (match (r1, r) {
            // match already complete after `a`: the whole run's remainder is
            // the split run's first remainder with `b` appended
            (Outcome::Matched(rest1), Outcome::Matched(rest)) => rest == rest1 + b,
            _ => true,
        }),
        (match (r2, r) {
            // match completed during `b`: the remainders coincide
            (Outcome::Matched(rest2), Outcome::Matched(rest)) => r1 is Undecided ==> rest2 == rest,
            _ => true,
        }),
{
    match pre.state_spec() {
        ConstantParserState::AtEnd(_) => {
            assert(e1 + e2 =~= e);
        },
        ConstantParserState::AtOffset(i) => {
            let t = pre.target().skip(i as int);
            if t.is_prefix_of(a) {
                // the whole target fits inside `a`
                assert(t =~= (a + b).subrange(0, t.len() as int));
                assert(t.is_prefix_of(a + b));
                assert(a.skip(t.len() as int) + b =~= (a + b).skip(t.len() as int));
                assert(e1 + e2 =~= e);
            } else if a.is_prefix_of(t) {
                // `a` consumed whole; the split run resumes at offset i + |a|
                assert(i + a.len() <= pre.target().len());
                let t2 = mid.target().skip(i + a.len());
                assert(t2 =~= t.skip(a.len() as int));
                if t2.is_prefix_of(b) {
                    assert forall|k: int| 0 <= k < t.len() implies t[k] == (a + b)[k] by {
                        if k < a.len() {
                            assert(t.subrange(0, a.len() as int)[k] == t[k]);
                        } else {
                            assert(t.skip(a.len() as int)[k - a.len()] == t[k]);
                            assert(b.subrange(0, t2.len() as int)[k - a.len()] == b[k - a.len()]);
                        }
                    }
                    assert(t =~= (a + b).subrange(0, t.len() as int));
                    assert(t.is_prefix_of(a + b));
                    assert(b.skip(t2.len() as int) =~= (a + b).skip(t.len() as int));
                    assert(e1 + e2 =~= e);
                } else if b.is_prefix_of(t2) {
                    assert(!t.is_prefix_of(a + b)) by {
                        if t.is_prefix_of(a + b) {
                            assert(t2 =~= b.subrange(0, t2.len() as int));
                            assert(t2.is_prefix_of(b));
                        }
                    }
                    assert((a + b) =~= t.subrange(0, (a + b).len() as int));
                    assert((a + b).is_prefix_of(t));
                    assert(e1 + e2 =~= e);
                } else {
                    // a mismatch within the `b` region fails either way
                    assert(!t.is_prefix_of(a + b)) by {
                        if t.is_prefix_of(a + b) {
                            assert(t2 =~= b.subrange(0, t2.len() as int));
                            assert(t2.is_prefix_of(b));
                        }
                    }
                    assert(!(a + b).is_prefix_of(t)) by {
                        if (a + b).is_prefix_of(t) {
                            assert forall|k: int| 0 <= k < b.len() implies b[k] == t2[k] by {
                                assert((a + b).subrange(0, (a + b).len() as int) =~= a + b);
                                assert(t.subrange(0, (a + b).len() as int)[a.len() + k] == t[a.len()
                                    + k]);
                                assert(t.skip(a.len() as int)[k] == t[a.len() + k]);
                            }
                            assert(b =~= t2.subrange(0, b.len() as int));
                            assert(b.is_prefix_of(t2));
                        }
                    }
                    assert(e1 + e2 =~= e);
                }
            } else {
                // a mismatch within `a` fails either way
                assert(!t.is_prefix_of(a + b)) by {
                    if t.is_prefix_of(a + b) {
                        if t.len() <= a.len() {
                            assert(t =~= a.subrange(0, t.len() as int));
                            assert(t.is_prefix_of(a));
                        } else {
                            assert(a =~= t.subrange(0, a.len() as int));
                            assert(a.is_prefix_of(t));
                        }
                    }
                }
                assert(!(a + b).is_prefix_of(t)) by {
                    if (a + b).is_prefix_of(t) {
                        assert(a =~= t.subrange(0, a.len() as int));
                        assert(a.is_prefix_of(t));
                    }
                }
                assert(e1 + e2 =~= e);
            }
        },
    }
}

impl<T: View + ?Sized, P: LawfulParser<T>> LawfulParser<T> for CommittedParser<P> {
    open spec fn equiv(&self, other: &Self) -> bool {
        self.inner().equiv(&other.inner())
    }

    open spec fn is_initial(&self) -> bool {
        self.inner().is_initial()
    }

    proof fn lemma_equiv_reflexive(x: Self) {
        P::lemma_equiv_reflexive(x.inner());
    }

    proof fn lemma_push_congruence(
        pre: Self,
        a: Seq<char>,
        b: Seq<char>,
        mid: Self,
        post_split: Self,
        e1: Seq<<T as View>::V>,
        e2: Seq<<T as View>::V>,
        r1: Outcome,
        r2: Outcome,
        post_whole: Self,
        e: Seq<<T as View>::V>,
        r: Outcome,
    ) {
        let ri1 = choose|ri: Outcome|
            #[trigger] P::push_spec(pre.inner(), a, mid.inner(), e1, ri) && r1 == commit_outcome(
                ri,
            );
        let ri2 = choose|ri: Outcome|
            #[trigger] P::push_spec(mid.inner(), b, post_split.inner(), e2, ri) && r2
                == commit_outcome(ri);
        let ri = choose|ri: Outcome|
            #[trigger] P::push_spec(pre.inner(), a + b, post_whole.inner(), e, ri) && r
                == commit_outcome(ri);
        P::lemma_push_congruence(
            pre.inner(),
            a,
            b,
            mid.inner(),
            post_split.inner(),
            e1,
            e2,
            ri1,
            ri2,
            post_whole.inner(),
            e,
            ri,
        );
    }

    proof fn lemma_push_deterministic(
        pre_x: Self,
        pre_y: Self,
        chunk: Seq<char>,
        post_x: Self,
        ex: Seq<<T as View>::V>,
        rx: Outcome,
        post_y: Self,
        ey: Seq<<T as View>::V>,
        ry: Outcome,
    ) {
        let rix = choose|ri: Outcome|
            #[trigger] P::push_spec(pre_x.inner(), chunk, post_x.inner(), ex, ri) && rx
                == commit_outcome(ri);
        let riy = choose|ri: Outcome|
            #[trigger] P::push_spec(pre_y.inner(), chunk, post_y.inner(), ey, ri) && ry
                == commit_outcome(ri);
        P::lemma_push_deterministic(
            pre_x.inner(),
            pre_y.inner(),
            chunk,
            post_x.inner(),
            ex,
            rix,
            post_y.inner(),
            ey,
            riy,
        );
    }

    proof fn lemma_matched_stays(
        pre: Self,
        chunk: Seq<char>,
        post: Self,
        emitted: Seq<<T as View>::V>,
        rest: Seq<char>,
        chunk2: Seq<char>,
    ) {
        let ri = choose|ri: Outcome|
            #[trigger] P::push_spec(pre.inner(), chunk, post.inner(), emitted, ri)
                && Outcome::Matched(rest) == commit_outcome(ri);
        P::lemma_matched_stays(pre.inner(), chunk, post.inner(), emitted, ri->Matched_0, chunk2);
        assert(Self::push_spec(
            post,
            chunk2,
            post,
            Seq::<<T as View>::V>::empty(),
            Outcome::Matched(chunk2),
        )) by {
            assert(P::push_spec(
                post.inner(),
                chunk2,
                post.inner(),
                Seq::<<T as View>::V>::empty(),
                Outcome::Matched(chunk2),
            ));
        }
    }

    proof fn lemma_failed_stays(
        pre: Self,
        chunk: Seq<char>,
        post: Self,
        emitted: Seq<<T as View>::V>,
        backtrack: bool,
        chunk2: Seq<char>,
    ) {
        let ri = choose|ri: Outcome|
            #[trigger] P::push_spec(pre.inner(), chunk, post.inner(), emitted, ri)
                && Outcome::Failed(backtrack) == commit_outcome(ri);
        P::lemma_failed_stays(pre.inner(), chunk, post.inner(), emitted, ri->Failed_0, chunk2);
        assert(Self::push_spec(
            post,
            chunk2,
            post,
            Seq::<<T as View>::V>::empty(),
            Outcome::Failed(backtrack),
        )) by {
            assert(P::push_spec(
                post.inner(),
                chunk2,
                post.inner(),
                Seq::<<T as View>::V>::empty(),
                Outcome::Failed(ri->Failed_0),
            ));
        }
    }

    proof fn lemma_done_initial(pre: Self, post: Self, emitted: Seq<<T as View>::V>, matched: bool) {
        P::lemma_done_initial(pre.inner(), post.inner(), emitted, matched);
    }
}

impl<P: LawfulParser<()>> LawfulParser<str> for BufferedParser<P> {
    open spec fn equiv(&self, other: &Self) -> bool {
        &&& self.state_spec() == other.state_spec()
        &&& self.inner().equiv(&other.inner())
    }

    open spec fn is_initial(&self) -> bool {
        &&& self.state_spec() == BufferedParserState::Beginning
        &&& self.inner().is_initial()
    }

    proof fn lemma_equiv_reflexive(x: Self) {
        P::lemma_equiv_reflexive(x.inner());
    }

    proof fn lemma_push_congruence(
        pre: Self,
        a: Seq<char>,
        b: Seq<char>,
        mid: Self,
        post_split: Self,
        e1: Seq<Seq<char>>,
        e2: Seq<Seq<char>>,
        r1: Outcome,
        r2: Outcome,
        post_whole: Self,
        e: Seq<Seq<char>>,
        r: Outcome,
    ) {
        match pre.state_spec() {
            BufferedParserState::EndMatch => {
                P::lemma_equiv_reflexive(pre.inner());
                assert(e1 + e2 =~= e);
            },
            BufferedParserState::EndFail(_) => {
                P::lemma_equiv_reflexive(pre.inner());
                assert(e1 + e2 =~= e);
            },
            _ => {
                let pend = buf_pending(pre.state_spec());
                let (pe1, pr1): (Seq<()>, Outcome) = choose|pe: Seq<()>, pr: Outcome|
                    #[trigger] buf_push_step(pre, a, mid, e1, r1, pe, pr);
                let (pe, pr): (Seq<()>, Outcome) = choose|pe: Seq<()>, pr: Outcome|
                    #[trigger] buf_push_step(pre, a + b, post_whole, e, r, pe, pr);
                match pr1 {
                    Outcome::Matched(rest1) => {
                        P::lemma_matched_stays(pre.inner(), a, mid.inner(), pe1, rest1, b);
                        P::lemma_push_congruence(
                            pre.inner(),
                            a,
                            b,
                            mid.inner(),
                            mid.inner(),
                            pe1,
                            Seq::<()>::empty(),
                            pr1,
                            Outcome::Matched(b),
                            post_whole.inner(),
                            pe,
                            pr,
                        );
                        let rest = pr->Matched_0;
                        assert(rest == rest1 + b);
                        assert(pend + (a + b).take((a + b).len() - rest.len()) =~= pend + a.take(
                            a.len() - rest1.len(),
                        ));
                        assert(e1 + e2 =~= e);
                    },
                    Outcome::Failed(bb) => {
                        P::lemma_failed_stays(pre.inner(), a, mid.inner(), pe1, bb, b);
                        P::lemma_push_congruence(
                            pre.inner(),
                            a,
                            b,
                            mid.inner(),
                            mid.inner(),
                            pe1,
                            Seq::<()>::empty(),
                            pr1,
                            Outcome::Failed(bb),
                            post_whole.inner(),
                            pe,
                            pr,
                        );
                        assert(e1 + e2 =~= e);
                    },
                    _ => {
                        assert(mid.state_spec() == BufferedParserState::Middle(pend + a));
                        let (pe2, pr2): (Seq<()>, Outcome) = choose|pe2: Seq<()>, pr2: Outcome|
                            #[trigger] buf_push_step(mid, b, post_split, e2, r2, pe2, pr2);
                        P::lemma_push_congruence(
                            pre.inner(),
                            a,
                            b,
                            mid.inner(),
                            post_split.inner(),
                            pe1,
                            pe2,
                            pr1,
                            pr2,
                            post_whole.inner(),
                            pe,
                            pr,
                        );
                        match pr2 {
                            Outcome::Matched(rest2) => {
                                let rest = pr->Matched_0;
                                assert(rest2 == rest);
                                assert(buf_pending(mid.state_spec()) + b.take(
                                    b.len() - rest2.len(),
                                ) =~= pend + (a + b).take((a + b).len() - rest.len()));
                                assert(e1 + e2 =~= e);
                            },
                            _ => {
                                assert((pend + a) + b =~= pend + (a + b));
                                assert(e1 + e2 =~= e);
                            },
                        }
                    },
                }
            },
        }
    }

    proof fn lemma_push_deterministic(
        pre_x: Self,
        pre_y: Self,
        chunk: Seq<char>,
        post_x: Self,
        ex: Seq<Seq<char>>,
        rx: Outcome,
        post_y: Self,
        ey: Seq<Seq<char>>,
        ry: Outcome,
    ) {
        match pre_x.state_spec() {
            BufferedParserState::EndMatch => {
            },
            BufferedParserState::EndFail(_) => {
            },
            _ => {
                let (pex, prx): (Seq<()>, Outcome) = choose|pe: Seq<()>, pr: Outcome|
                    #[trigger] buf_push_step(pre_x, chunk, post_x, ex, rx, pe, pr);
                let (pey, pry): (Seq<()>, Outcome) = choose|pe: Seq<()>, pr: Outcome|
                    #[trigger] buf_push_step(pre_y, chunk, post_y, ey, ry, pe, pr);
                P::lemma_push_deterministic(
                    pre_x.inner(),
                    pre_y.inner(),
                    chunk,
                    post_x.inner(),
                    pex,
                    prx,
                    post_y.inner(),
                    pey,
                    pry,
                );
            },
        }
    }

    proof fn lemma_matched_stays(
        pre: Self,
        chunk: Seq<char>,
        post: Self,
        emitted: Seq<Seq<char>>,
        rest: Seq<char>,
        chunk2: Seq<char>,
    ) {
        assert(post.state_spec() == BufferedParserState::EndMatch) by {
            if !(pre.state_spec() is EndMatch) && !(pre.state_spec() is EndFail) {
                let (pe, pr): (Seq<()>, Outcome) = choose|pe: Seq<()>, pr: Outcome|
                    #[trigger] buf_push_step(pre, chunk, post, emitted, Outcome::Matched(rest), pe, pr);
            }
        }
    }

    proof fn lemma_failed_stays(
        pre: Self,
        chunk: Seq<char>,
        post: Self,
        emitted: Seq<Seq<char>>,
        backtrack: bool,
        chunk2: Seq<char>,
    ) {
        assert(post.state_spec() == BufferedParserState::EndFail(backtrack)) by {
            if !(pre.state_spec() is EndMatch) && !(pre.state_spec() is EndFail) {
                let (pe, pr): (Seq<()>, Outcome) = choose|pe: Seq<()>, pr: Outcome|
                    #[trigger] buf_push_step(pre, chunk, post, emitted, Outcome::Failed(backtrack), pe, pr);
            }
        }
    }

    proof fn lemma_done_initial(pre: Self, post: Self, emitted: Seq<Seq<char>>, matched: bool) {
        let pe = choose|pe: Seq<()>| #[trigger] P::done_spec(pre.inner(), post.inner(), pe, matched);
        P::lemma_done_initial(pre.inner(), post.inner(), pe, matched);
    }
}

impl<T: View + ?Sized, L: LawfulParser<T>, R: LawfulParser<T>> LawfulParser<T> for AndThenParser<
    L,
    R,
> {
    open spec fn equiv(&self, other: &Self) -> bool {
        &&& self.lhs_spec().equiv(&other.lhs_spec())
        &&& self.rhs_spec().equiv(&other.rhs_spec())
        &&& self.in_lhs_spec() == other.in_lhs_spec()
    }

    open spec fn is_initial(&self) -> bool {
        &&& self.in_lhs_spec()
        &&& self.lhs_spec().is_initial()
        &&& self.rhs_spec().is_initial()
    }

    proof fn lemma_equiv_reflexive(x: Self) {
        L::lemma_equiv_reflexive(x.lhs_spec());
        <CommittedParser<R> as LawfulParser<T>>::lemma_equiv_reflexive(x.rhs_spec());
    }

    proof fn lemma_push_congruence(
        pre: Self,
        a: Seq<char>,
        b: Seq<char>,
        mid: Self,
        post_split: Self,
        e1: Seq<<T as View>::V>,
        e2: Seq<<T as View>::V>,
        r1: Outcome,
        r2: Outcome,
        post_whole: Self,
        e: Seq<<T as View>::V>,
        r: Outcome,
    ) {
        if !pre.in_lhs_spec() {
            <CommittedParser<R> as LawfulParser<T>>::lemma_push_congruence(
                pre.rhs_spec(),
                a,
                b,
                mid.rhs_spec(),
                post_split.rhs_spec(),
                e1,
                e2,
                r1,
                r2,
                post_whole.rhs_spec(),
                e,
                r,
            );
            L::lemma_equiv_reflexive(pre.lhs_spec());
            return ;
        }
        let (lpost1, le1, lr1): (L, Seq<<T as View>::V>, Outcome) = choose|
            lpost: L,
            le: Seq<<T as View>::V>,
            lr: Outcome,
        |
            #[trigger] seq_push_step(pre, a, mid, e1, r1, lpost, le, lr);
        let (lpostw, lew, lrw): (L, Seq<<T as View>::V>, Outcome) = choose|
            lpost: L,
            le: Seq<<T as View>::V>,
            lr: Outcome,
        |
            #[trigger] seq_push_step(pre, a + b, post_whole, e, r, lpost, le, lr);
        if lr1 is Matched {
            // the left match completed within `a`: the split run is already on
            // the right side when `b` arrives
            let rest1 = lr1->Matched_0;
            let re1 = choose|re: Seq<<T as View>::V>|
                #[trigger] <CommittedParser<R> as Parser<T>>::push_spec(
                    pre.rhs_spec(),
                    rest1,
                    mid.rhs_spec(),
                    re,
                    r1,
                ) && e1 == le1 + re;
            L::lemma_matched_stays(pre.lhs_spec(), a, lpost1, le1, rest1, b);
            L::lemma_push_congruence(
                pre.lhs_spec(),
                a,
                b,
                lpost1,
                lpost1,
                le1,
                Seq::<<T as View>::V>::empty(),
                lr1,
                Outcome::Matched(b),
                lpostw,
                lew,
                lrw,
            );
            let restw = lrw->Matched_0;
            assert(restw == rest1 + b);
            let rew = choose|re: Seq<<T as View>::V>|
                #[trigger] <CommittedParser<R> as Parser<T>>::push_spec(
                    pre.rhs_spec(),
                    restw,
                    post_whole.rhs_spec(),
                    re,
                    r,
                ) && e == lew + re;
            // in the split run, `b` goes straight to the right side
            <CommittedParser<R> as LawfulParser<T>>::lemma_push_congruence(
                pre.rhs_spec(),
                rest1,
                b,
                mid.rhs_spec(),
                post_split.rhs_spec(),
                re1,
                e2,
                r1,
                r2,
                post_whole.rhs_spec(),
                rew,
                r,
            );
            assert(lew =~= le1);
            assert(e1 + e2 =~= le1 + (re1 + e2));
            assert(e1 + e2 =~= e);
        } else {
            // the left side is still active after `a`
            let (lpost2, le2, lr2): (L, Seq<<T as View>::V>, Outcome) = choose|
                lpost: L,
                le: Seq<<T as View>::V>,
                lr: Outcome,
            |
                #[trigger] seq_push_step(mid, b, post_split, e2, r2, lpost, le, lr);
            L::lemma_push_congruence(
                pre.lhs_spec(),
                a,
                b,
                lpost1,
                lpost2,
                le1,
                le2,
                lr1,
                lr2,
                lpostw,
                lew,
                lrw,
            );
            if lr2 is Matched {
                let rest2 = lr2->Matched_0;
                if lr1 is Failed {
                    // a failed left side stays failed: it cannot match during `b`
                    L::lemma_failed_stays(pre.lhs_spec(), a, lpost1, le1, lr1->Failed_0, b);
                    L::lemma_equiv_reflexive(lpost1);
                    L::lemma_push_deterministic(
                        lpost1,
                        lpost1,
                        b,
                        lpost2,
                        le2,
                        lr2,
                        lpost1,
                        Seq::<<T as View>::V>::empty(),
                        Outcome::Failed(lr1->Failed_0),
                    );
                    assert(false);
                }
                // the left match completed during `b`: both runs hand the same
                // remainder to the same right side
                let restw = lrw->Matched_0;
                assert(restw == rest2);
                let re2 = choose|re: Seq<<T as View>::V>|
                    #[trigger] <CommittedParser<R> as Parser<T>>::push_spec(
                        mid.rhs_spec(),
                        rest2,
                        post_split.rhs_spec(),
                        re,
                        r2,
                    ) && e2 == le2 + re;
                let rew = choose|re: Seq<<T as View>::V>|
                    #[trigger] <CommittedParser<R> as Parser<T>>::push_spec(
                        pre.rhs_spec(),
                        restw,
                        post_whole.rhs_spec(),
                        re,
                        r,
                    ) && e == lew + re;
                <CommittedParser<R> as LawfulParser<T>>::lemma_equiv_reflexive(pre.rhs_spec());
                <CommittedParser<R> as LawfulParser<T>>::lemma_push_deterministic(
                    pre.rhs_spec(),
                    pre.rhs_spec(),
                    rest2,
                    post_split.rhs_spec(),
                    re2,
                    r2,
                    post_whole.rhs_spec(),
                    rew,
                    r,
                );
                assert(e1 + e2 =~= (le1 + le2) + re2);
                assert(e =~= lew + rew);
                assert(e1 + e2 =~= e);
            } else {
                <CommittedParser<R> as LawfulParser<T>>::lemma_equiv_reflexive(pre.rhs_spec());
                assert(e1 + e2 =~= e);
            }
        }
    }

    proof fn lemma_push_deterministic(
        pre_x: Self,
        pre_y: Self,
        chunk: Seq<char>,
        post_x: Self,
        ex: Seq<<T as View>::V>,
        rx: Outcome,
        post_y: Self,
        ey: Seq<<T as View>::V>,
        ry: Outcome,
    ) {
        if !pre_x.in_lhs_spec() {
            <CommittedParser<R> as LawfulParser<T>>::lemma_push_deterministic(
                pre_x.rhs_spec(),
                pre_y.rhs_spec(),
                chunk,
                post_x.rhs_spec(),
                ex,
                rx,
                post_y.rhs_spec(),
                ey,
                ry,
            );
            return ;
        }
        let (lpost_x, le_x, lr_x): (L, Seq<<T as View>::V>, Outcome) = choose|
            lpost: L,
            le: Seq<<T as View>::V>,
            lr: Outcome,
        |
            #[trigger] seq_push_step(pre_x, chunk, post_x, ex, rx, lpost, le, lr);
        let (lpost_y, le_y, lr_y): (L, Seq<<T as View>::V>, Outcome) = choose|
            lpost: L,
            le: Seq<<T as View>::V>,
            lr: Outcome,
        |
            #[trigger] seq_push_step(pre_y, chunk, post_y, ey, ry, lpost, le, lr);
        L::lemma_push_deterministic(
            pre_x.lhs_spec(),
            pre_y.lhs_spec(),
            chunk,
            lpost_x,
            le_x,
            lr_x,
            lpost_y,
            le_y,
            lr_y,
        );
        if lr_x is Matched {
            let rest = lr_x->Matched_0;
            let re_x = choose|re: Seq<<T as View>::V>|
                #[trigger] <CommittedParser<R> as Parser<T>>::push_spec(
                    pre_x.rhs_spec(),
                    rest,
                    post_x.rhs_spec(),
                    re,
                    rx,
                ) && ex == le_x + re;
            let re_y = choose|re: Seq<<T as View>::V>|
                #[trigger] <CommittedParser<R> as Parser<T>>::push_spec(
                    pre_y.rhs_spec(),
                    rest,
                    post_y.rhs_spec(),
                    re,
                    ry,
                ) && ey == le_y + re;
            <CommittedParser<R> as LawfulParser<T>>::lemma_push_deterministic(
                pre_x.rhs_spec(),
                pre_y.rhs_spec(),
                rest,
                post_x.rhs_spec(),
                re_x,
                rx,
                post_y.rhs_spec(),
                re_y,
                ry,
            );
            assert(ex =~= ey);
        }
    }

    proof fn lemma_matched_stays(
        pre: Self,
        chunk: Seq<char>,
        post: Self,
        emitted: Seq<<T as View>::V>,
        rest: Seq<char>,
        chunk2: Seq<char>,
    ) {
        if pre.in_lhs_spec() {
            let (lpost, le, lr): (L, Seq<<T as View>::V>, Outcome) = choose|
                lpost: L,
                le: Seq<<T as View>::V>,
                lr: Outcome,
            |
                #[trigger] seq_push_step(pre, chunk, post, emitted, Outcome::Matched(rest), lpost, le, lr);
            let lrest = lr->Matched_0;
            let re = choose|re: Seq<<T as View>::V>|
                #[trigger] <CommittedParser<R> as Parser<T>>::push_spec(
                    pre.rhs_spec(),
                    lrest,
                    post.rhs_spec(),
                    re,
                    Outcome::Matched(rest),
                ) && emitted == le + re;
            <CommittedParser<R> as LawfulParser<T>>::lemma_matched_stays(
                pre.rhs_spec(),
                lrest,
                post.rhs_spec(),
                re,
                rest,
                chunk2,
            );
        } else {
            <CommittedParser<R> as LawfulParser<T>>::lemma_matched_stays(
                pre.rhs_spec(),
                chunk,
                post.rhs_spec(),
                emitted,
                rest,
                chunk2,
            );
        }
        assert(Self::push_spec(
            post,
            chunk2,
            post,
            Seq::<<T as View>::V>::empty(),
            Outcome::Matched(chunk2),
        ));
    }

    proof fn lemma_failed_stays(
        pre: Self,
        chunk: Seq<char>,
        post: Self,
        emitted: Seq<<T as View>::V>,
        backtrack: bool,
        chunk2: Seq<char>,
    ) {
        if pre.in_lhs_spec() {
            let (lpost, le, lr): (L, Seq<<T as View>::V>, Outcome) = choose|
                lpost: L,
                le: Seq<<T as View>::V>,
                lr: Outcome,
            |
                #[trigger] seq_push_step(pre, chunk, post, emitted, Outcome::Failed(backtrack), lpost, le, lr);
            if lr is Matched {
                // the failure came from the right side, which is terminal now
                let lrest = lr->Matched_0;
                let re = choose|re: Seq<<T as View>::V>|
                    #[trigger] <CommittedParser<R> as Parser<T>>::push_spec(
                        pre.rhs_spec(),
                        lrest,
                        post.rhs_spec(),
                        re,
                        Outcome::Failed(backtrack),
                    ) && emitted == le + re;
                <CommittedParser<R> as LawfulParser<T>>::lemma_failed_stays(
                    pre.rhs_spec(),
                    lrest,
                    post.rhs_spec(),
                    re,
                    backtrack,
                    chunk2,
                );
                assert(Self::push_spec(
                    post,
                    chunk2,
                    post,
                    Seq::<<T as View>::V>::empty(),
                    Outcome::Failed(backtrack),
                ));
            } else {
                // the left side failed and stays failed
                L::lemma_failed_stays(pre.lhs_spec(), chunk, lpost, le, backtrack, chunk2);
                assert(seq_push_step(
                    post,
                    chunk2,
                    post,
                    Seq::<<T as View>::V>::empty(),
                    Outcome::Failed(backtrack),
                    lpost,
                    Seq::<<T as View>::V>::empty(),
                    Outcome::Failed(backtrack),
                ));
                assert(Self::push_spec(
                    post,
                    chunk2,
                    post,
                    Seq::<<T as View>::V>::empty(),
                    Outcome::Failed(backtrack),
                ));
            }
        } else {
            <CommittedParser<R> as LawfulParser<T>>::lemma_failed_stays(
                pre.rhs_spec(),
                chunk,
                post.rhs_spec(),
                emitted,
                backtrack,
                chunk2,
            );
            assert(Self::push_spec(
                post,
                chunk2,
                post,
                Seq::<<T as View>::V>::empty(),
                Outcome::Failed(backtrack),
            ));
        }
    }

    proof fn lemma_done_initial(pre: Self, post: Self, emitted: Seq<<T as View>::V>, matched: bool) {
        let (le, re, lm, rm): (Seq<<T as View>::V>, Seq<<T as View>::V>, bool, bool) = choose|
            le: Seq<<T as View>::V>,
            re: Seq<<T as View>::V>,
            lm: bool,
            rm: bool,
        |
            #[trigger] seq_done_step(pre, post, emitted, matched, le, re, lm, rm);
        L::lemma_done_initial(pre.lhs_spec(), post.lhs_spec(), le, lm);
        <CommittedParser<R> as LawfulParser<T>>::lemma_done_initial(
            pre.rhs_spec(),
            post.rhs_spec(),
            re,
            rm,
        );
    }
}

/// A literal matcher's behaviour is a function of its state and the chunk:
/// two pushes of the same chunk from states with the same target and the same
/// position agree in everything observable.
pub proof fn lemma_constant_deterministic(
    pre_x: ConstantParser,
    pre_y: ConstantParser,
    chunk: Seq<char>,
    post_x: ConstantParser,
    ex: Seq<()>,
    rx: Outcome,
    post_y: ConstantParser,
    ey: Seq<()>,
    ry: Outcome,
)
    requires
        pre_x.target() == pre_y.target(),
        pre_x.state_spec() == pre_y.state_spec(),
        lit_push(pre_x, chunk, post_x, ex, rx),
        lit_push(pre_y, chunk, post_y, ey, ry),
    ensures
        ex == ey,
        rx == ry,
        post_x.state_spec() == post_y.state_spec(),
        post_x.target() == post_y.target(),
{
}

/// Pushing an empty chunk into a literal matcher that is still mid-target is
/// a no-op: it returns `Undecided`, emits nothing and leaves the state as it
/// was. (A matcher whose target is already exhausted instead reports its
/// match, so that case is excluded.)
pub proof fn lemma_constant_empty_push(
    pre: ConstantParser,
    post: ConstantParser,
    emitted: Seq<()>,
    r: Outcome,
)
    requires
        pre.inv(),
        pre.state_spec() matches ConstantParserState::AtOffset(i) && (i as nat)
            < pre.target().len(),
        lit_push(pre, Seq::<char>::empty(), post, emitted, r),
    ensures
        r == Outcome::Undecided,
        emitted == Seq::<()>::empty(),
        post.state_spec() == pre.state_spec(),
        post.target() == pre.target(),
{
    let i = pre.state_spec()->AtOffset_0;
    let t = pre.target().skip(i as int);
    assert(!t.is_prefix_of(Seq::<char>::empty()));
    assert(Seq::<char>::empty().is_prefix_of(t));
}

/// A push of a literal matcher that returns `Undecided` or a backtrackable
/// failure has emitted nothing: the caller may discard the chunk and retry an
/// alternative matcher from the same logical position.
pub proof fn lemma_constant_retry_safe(
    pre: ConstantParser,
    chunk: Seq<char>,
    post: ConstantParser,
    emitted: Seq<()>,
    r: Outcome,
)
    requires
        lit_push(pre, chunk, post, emitted, r),
        r == Outcome::Undecided || r == Outcome::Failed(true),
    ensures
        emitted == Seq::<()>::empty(),
{
}

/// A push of the buffering adapter that returns `Undecided` or a
/// backtrackable failure has emitted nothing.
pub proof fn lemma_buffered_retry_safe<P: Parser<()>>(
    pre: BufferedParser<P>,
    chunk: Seq<char>,
    post: BufferedParser<P>,
    emitted: Seq<Seq<char>>,
    r: Outcome,
)
    requires
        <BufferedParser<P> as Parser<str>>::push_spec(pre, chunk, post, emitted, r),
        r == Outcome::Undecided || r == Outcome::Failed(true),
    ensures
        emitted == Seq::<Seq<char>>::empty(),
{
}

/// A push of the sequencing combinator over two literal matchers that returns
/// `Undecided` or a backtrackable failure has emitted nothing. (Such a reply
/// can only come from the left side: the committed right side never allows
/// backtracking.)
pub proof fn lemma_and_then_constant_retry_safe(
    pre: AndThenParser<ConstantParser, ConstantParser>,
    chunk: Seq<char>,
    post: AndThenParser<ConstantParser, ConstantParser>,
    emitted: Seq<()>,
    r: Outcome,
)
    requires
        <AndThenParser<ConstantParser, ConstantParser> as Parser<()>>::push_spec(
            pre,
            chunk,
            post,
            emitted,
            r,
        ),
        r == Outcome::Undecided || r == Outcome::Failed(true),
    ensures
        emitted == Seq::<()>::empty(),
{
    if pre.in_lhs_spec() {
        let (lpost, le, lr): (ConstantParser, Seq<()>, Outcome) = choose|
            lpost: ConstantParser,
            le: Seq<()>,
            lr: Outcome,
        |
            #[trigger] seq_push_step(pre, chunk, post, emitted, r, lpost, le, lr);
        if lr is Matched {
            let rest = lr->Matched_0;
            let re = choose|re: Seq<()>|
                #[trigger] <CommittedParser<ConstantParser> as Parser<()>>::push_spec(
                    pre.rhs_spec(),
                    rest,
                    post.rhs_spec(),
                    re,
                    r,
                ) && emitted == le + re;
            let ri = choose|ri: Outcome|
                #[trigger] <ConstantParser as Parser<()>>::push_spec(
                    pre.rhs_spec().inner(),
                    rest,
                    post.rhs_spec().inner(),
                    re,
                    ri,
                ) && r == commit_outcome(ri);
            assert(false);
        }
    } else {
        let ri = choose|ri: Outcome|
            #[trigger] <ConstantParser as Parser<()>>::push_spec(
                pre.rhs_spec().inner(),
                chunk,
                post.rhs_spec().inner(),
                emitted,
                ri,
            ) && r == commit_outcome(ri);
        assert(false);
    }
}

/// Once a literal matcher has reported `Matched` or `Failed`, every later
/// push before the next `done` repeats the same reply — with the whole chunk
/// as the remainder of a repeated match — and changes nothing.
pub proof fn lemma_constant_terminal(
    pre: ConstantParser,
    chunk: Seq<char>,
    post: ConstantParser,
    emitted: Seq<()>,
    r: Outcome,
)
    requires
        pre.state_spec() matches ConstantParserState::AtEnd(b),
        lit_push(pre, chunk, post, emitted, r),
    ensures
        post.state_spec() == pre.state_spec(),
        post.target() == pre.target(),
        emitted == Seq::<()>::empty(),
        pre.state_spec() == ConstantParserState::AtEnd(true) ==> r == Outcome::Matched(chunk),
        pre.state_spec() == ConstantParserState::AtEnd(false) ==> r == Outcome::Failed(true),
{
}

/// A push that ends a literal matcher's run leaves it in the terminal state
/// that `lemma_constant_terminal` then holds onto: the automaton is closed.
pub proof fn lemma_constant_enters_terminal(
    pre: ConstantParser,
    chunk: Seq<char>,
    post: ConstantParser,
    emitted: Seq<()>,
    r: Outcome,
)
    requires
        lit_push(pre, chunk, post, emitted, r),
    ensures
        r is Matched ==> post.state_spec() == ConstantParserState::AtEnd(true),
        r is Failed ==> post.state_spec() == ConstantParserState::AtEnd(false),
        r is Failed ==> r == Outcome::Failed(true),
{
}

/// After `done`, a literal matcher is exactly as freshly constructed: same
/// target, position reset to the start of the target.
pub proof fn lemma_constant_reset(
    pre: ConstantParser,
    post: ConstantParser,
    emitted: Seq<()>,
    matched: bool,
)
    requires
        lit_done(pre, post, emitted, matched),
    ensures
        post.target() == pre.target(),
        post.state_spec() == ConstantParserState::AtOffset(0),
{
}

/// The result automaton is closed for the commit wrapper around a literal
/// matcher: a failure is always the permanent `Failed(false)`, any failure or
/// match drives the inner matcher into the matching terminal state, and from
/// a terminal state every later push before the next `done` repeats the same
/// reply without emitting.
pub proof fn lemma_committed_constant_closure(
    pre: CommittedParser<ConstantParser>,
    chunk: Seq<char>,
    post: CommittedParser<ConstantParser>,
    emitted: Seq<()>,
    r: Outcome,
)
    requires
        <CommittedParser<ConstantParser> as Parser<()>>::push_spec(pre, chunk, post, emitted, r),
    ensures
        r is Failed ==> r == Outcome::Failed(false),
        r is Failed ==> post.inner().state_spec() == ConstantParserState::AtEnd(false),
        r is Matched ==> post.inner().state_spec() == ConstantParserState::AtEnd(true),
        pre.inner().state_spec() == ConstantParserState::AtEnd(false) ==> r == Outcome::Failed(
            false,
        ) && post.inner().state_spec() == pre.inner().state_spec() && emitted == Seq::<()>::empty(),
        pre.inner().state_spec() == ConstantParserState::AtEnd(true) ==> r == Outcome::Matched(
            chunk,
        ) && post.inner().state_spec() == pre.inner().state_spec() && emitted == Seq::<()>::empty(),
{
    let ri = choose|ri: Outcome|
        #[trigger] <ConstantParser as Parser<()>>::push_spec(pre.inner(), chunk, post.inner(), emitted, ri)
            && r == commit_outcome(ri);
    lemma_constant_enters_terminal(pre.inner(), chunk, post.inner(), emitted, ri);
}

/// The result automaton is closed for the sequencing combinator over two
/// literal matchers: a backtrackable failure leaves the left side terminal
/// and repeats; a permanent failure or a match leaves the right side terminal
/// and repeats, with a repeated match returning the whole chunk.
pub proof fn lemma_and_then_constant_closure(
    pre: AndThenParser<ConstantParser, ConstantParser>,
    chunk: Seq<char>,
    post: AndThenParser<ConstantParser, ConstantParser>,
    emitted: Seq<()>,
    r: Outcome,
)
    requires
        <AndThenParser<ConstantParser, ConstantParser> as Parser<()>>::push_spec(
            pre,
            chunk,
            post,
            emitted,
            r,
        ),
    ensures
        r is Failed && post.in_lhs_spec() ==> r == Outcome::Failed(true)
            && post.lhs_spec().state_spec() == ConstantParserState::AtEnd(false),
        r is Failed && !post.in_lhs_spec() ==> r == Outcome::Failed(false)
            && post.rhs_spec().inner().state_spec() == ConstantParserState::AtEnd(false),
        r is Matched ==> !post.in_lhs_spec() && post.rhs_spec().inner().state_spec()
            == ConstantParserState::AtEnd(true),
        pre.in_lhs_spec() && pre.lhs_spec().state_spec() == ConstantParserState::AtEnd(false)
            ==> r == Outcome::Failed(true) && post.in_lhs_spec() && post.lhs_spec().state_spec()
            == pre.lhs_spec().state_spec() && emitted == Seq::<()>::empty(),
        !pre.in_lhs_spec() && pre.rhs_spec().inner().state_spec() == ConstantParserState::AtEnd(
            false,
        ) ==> r == Outcome::Failed(false) && !post.in_lhs_spec()
            && post.rhs_spec().inner().state_spec() == pre.rhs_spec().inner().state_spec()
            && emitted == Seq::<()>::empty(),
        !pre.in_lhs_spec() && pre.rhs_spec().inner().state_spec() == ConstantParserState::AtEnd(
            true,
        ) ==> r == Outcome::Matched(chunk) && !post.in_lhs_spec()
            && post.rhs_spec().inner().state_spec() == pre.rhs_spec().inner().state_spec()
            && emitted == Seq::<()>::empty(),
{
    if pre.in_lhs_spec() {
        let (lpost, le, lr): (ConstantParser, Seq<()>, Outcome) = choose|
            lpost: ConstantParser,
            le: Seq<()>,
            lr: Outcome,
        |
            #[trigger] seq_push_step(pre, chunk, post, emitted, r, lpost, le, lr);
        lemma_constant_enters_terminal(pre.lhs_spec(), chunk, lpost, le, lr);
        if lr is Matched {
            let rest = lr->Matched_0;
            let re = choose|re: Seq<()>|
                #[trigger] <CommittedParser<ConstantParser> as Parser<()>>::push_spec(
                    pre.rhs_spec(),
                    rest,
                    post.rhs_spec(),
                    re,
                    r,
                ) && emitted == le + re;
            lemma_committed_constant_closure(pre.rhs_spec(), rest, post.rhs_spec(), re, r);
        }
    } else {
        lemma_committed_constant_closure(pre.rhs_spec(), chunk, post.rhs_spec(), emitted, r);
    }
}

/// After `done`, the commit wrapper around a literal matcher is exactly as
/// freshly constructed.
pub proof fn lemma_committed_constant_reset(
    pre: CommittedParser<ConstantParser>,
    post: CommittedParser<ConstantParser>,
    emitted: Seq<()>,
    matched: bool,
)
    requires
        <CommittedParser<ConstantParser> as Parser<()>>::done_spec(pre, post, emitted, matched),
    ensures
        post.inner().state_spec() == ConstantParserState::AtOffset(0),
        post.inner().target() == pre.inner().target(),
{
}

/// Once the buffering adapter has reached a terminal state, every later push
/// before the next `done` repeats the same reply, emits nothing, and leaves
/// the adapter and its inner matcher untouched.
pub proof fn lemma_buffered_terminal<P: Parser<()>>(
    pre: BufferedParser<P>,
    chunk: Seq<char>,
    post: BufferedParser<P>,
    emitted: Seq<Seq<char>>,
    r: Outcome,
)
    requires
        pre.state_spec() matches BufferedParserState::EndMatch || pre.state_spec()
            matches BufferedParserState::EndFail(b),
        <BufferedParser<P> as Parser<str>>::push_spec(pre, chunk, post, emitted, r),
    ensures
        post == pre,
        emitted == Seq::<Seq<char>>::empty(),
        pre.state_spec() matches BufferedParserState::EndMatch ==> r == Outcome::Matched(chunk),
        pre.state_spec() matches BufferedParserState::EndFail(b) ==> r == Outcome::Failed(b),
{
}

/// Pushing an empty chunk into the buffering adapter over a literal matcher
/// that is still mid-target is a no-op: it returns `Undecided`, emits
/// nothing, and leaves the buffered text and the inner matcher as they were.
pub proof fn lemma_buffered_empty_push(
    pre: BufferedParser<ConstantParser>,
    post: BufferedParser<ConstantParser>,
    emitted: Seq<Seq<char>>,
    r: Outcome,
)
    requires
        pre.inv(),
        !(pre.state_spec() is EndMatch),
        !(pre.state_spec() is EndFail),
        pre.inner().state_spec() matches ConstantParserState::AtOffset(i) && (i as nat)
            < pre.inner().target().len(),
        <BufferedParser<ConstantParser> as Parser<str>>::push_spec(
            pre,
            Seq::<char>::empty(),
            post,
            emitted,
            r,
        ),
    ensures
        r == Outcome::Undecided,
        emitted == Seq::<Seq<char>>::empty(),
        buf_pending(post.state_spec()) == buf_pending(pre.state_spec()),
        post.inner().state_spec() == pre.inner().state_spec(),
        post.inner().target() == pre.inner().target(),
{
    let (pe, pr): (Seq<()>, Outcome) = choose|pe: Seq<()>, pr: Outcome|
        #[trigger] buf_push_step(pre, Seq::<char>::empty(), post, emitted, r, pe, pr);
    lemma_constant_empty_push(pre.inner(), post.inner(), pe, pr);
    assert(buf_pending(pre.state_spec()) + Seq::<char>::empty() =~= buf_pending(pre.state_spec()));
}

/// A match that completes within the very first push of a run costs the
/// buffering adapter nothing: no text was buffered before the call, none is
/// buffered by it, and the single emitted value is exactly the consumed
/// prefix of the caller's own chunk.
pub proof fn lemma_buffered_single_chunk_match<P: Parser<()>>(
    pre: BufferedParser<P>,
    chunk: Seq<char>,
    post: BufferedParser<P>,
    emitted: Seq<Seq<char>>,
    rest: Seq<char>,
)
    requires
        pre.state_spec() == BufferedParserState::Beginning,
        <BufferedParser<P> as Parser<str>>::push_spec(pre, chunk, post, emitted, Outcome::Matched(rest)),
    ensures
        rest.len() <= chunk.len(),
        emitted == seq![chunk.take(chunk.len() - rest.len())],
        post.state_spec() == BufferedParserState::EndMatch,
{
    let (pe, pr): (Seq<()>, Outcome) = choose|pe: Seq<()>, pr: Outcome|
        #[trigger] buf_push_step(pre, chunk, post, emitted, Outcome::Matched(rest), pe, pr);
    assert(pr == Outcome::Matched(rest));
    assert(buf_pending(pre.state_spec()) + chunk.take(chunk.len() - rest.len()) =~= chunk.take(
        chunk.len() - rest.len(),
    ));
    assert(emitted =~= seq![chunk.take(chunk.len() - rest.len())]);
}

/// After `done`, the buffering adapter is back at the beginning of a run,
/// whatever happened before.
pub proof fn lemma_buffered_reset<P: Parser<()>>(
    pre: BufferedParser<P>,
    post: BufferedParser<P>,
    emitted: Seq<Seq<char>>,
    matched: bool,
)
    requires
        <BufferedParser<P> as Parser<str>>::done_spec(pre, post, emitted, matched),
    ensures
        post.state_spec() == BufferedParserState::Beginning,
{
}

/// After `done`, the buffering adapter over a literal matcher is exactly as
/// freshly constructed: back at the beginning of a run with the inner matcher
/// reset to the start of its target.
pub proof fn lemma_buffered_constant_reset(
    pre: BufferedParser<ConstantParser>,
    post: BufferedParser<ConstantParser>,
    emitted: Seq<Seq<char>>,
    matched: bool,
)
    requires
        <BufferedParser<ConstantParser> as Parser<str>>::done_spec(pre, post, emitted, matched),
    ensures
        post.state_spec() == BufferedParserState::Beginning,
        post.inner().state_spec() == ConstantParserState::AtOffset(0),
        post.inner().target() == pre.inner().target(),
{
    let pe = choose|pe: Seq<()>|
        #[trigger] <ConstantParser as Parser<()>>::done_spec(pre.inner(), post.inner(), pe, matched);
    assert(lit_done(pre.inner(), post.inner(), pe, matched));
}

/// The commit wrapper never lets a backtrackable failure out: whatever its
/// inner matcher replied, the mapped outcome is `Committed`, `Matched`, or
/// `Failed(false)` — never `Undecided` and never `Failed(true)`.
pub proof fn lemma_committed_never_backtrackable(r: Outcome)
    ensures
        class_of(commit_outcome(r)) != OutcomeClass::Undecided,
        class_of(commit_outcome(r)) != OutcomeClass::Failed(true),
{
}

/// After `done`, a sequencing combinator over two literal matchers is exactly
/// as freshly constructed: the left side is the active one again and both
/// sides stand at the start of their targets.
pub proof fn lemma_and_then_reset(
    pre: AndThenParser<ConstantParser, ConstantParser>,
    post: AndThenParser<ConstantParser, ConstantParser>,
    emitted: Seq<()>,
    matched: bool,
)
    requires
        <AndThenParser<ConstantParser, ConstantParser> as Parser<()>>::done_spec(
            pre,
            post,
            emitted,
            matched,
        ),
    ensures
        post.in_lhs_spec() == true,
        post.lhs_spec().state_spec() == ConstantParserState::AtOffset(0),
        post.lhs_spec().target() == pre.lhs_spec().target(),
        post.rhs_spec().inner().state_spec() == ConstantParserState::AtOffset(0),
        post.rhs_spec().inner().target() == pre.rhs_spec().inner().target(),
{
    let (le, re, lm, rm): (Seq<()>, Seq<()>, bool, bool) = choose|
        le: Seq<()>,
        re: Seq<()>,
        lm: bool,
        rm: bool,
    |
        #[trigger] seq_done_step(pre, post, emitted, matched, le, re, lm, rm);
    assert(lit_done(pre.lhs_spec(), post.lhs_spec(), le, lm));
    assert(lit_done(pre.rhs_spec().inner(), post.rhs_spec().inner(), re, rm));
}

} // verus!
