pub mod buffered;
pub mod combine;
pub mod laws;
pub mod literal;

pub use crate::buffered::BufferableMatcher;
pub use crate::buffered::BufferedParser;
pub use crate::buffered::BufferedParserState;

pub use crate::combine::commit_outcome;
pub use crate::laws::LawfulParser;
pub use crate::combine::AndThenParser;
pub use crate::combine::CommittedParser;

pub use crate::literal::constant;
pub use crate::literal::ConstantParser;
pub use crate::literal::ConstantParserState;

use vstd::prelude::*;
use vstd::string::StringExecFns;

verus! {

/// The outcome of one `push` call, as seen by specifications: the same four
/// variants as `MatchResult`, with any remainder abstracted to its view.
pub enum Outcome {
    Undecided,
    Committed,
    Matched(Seq<char>),
    Failed(bool),
}

/// The result of pushing one chunk into a matcher. `Matched` carries the
/// unconsumed suffix of the chunk just pushed, borrowed from that chunk.
#[derive(Clone, Copy, PartialEq, Eq, Debug)]
pub enum MatchResult<T> {
    Undecided,
    Committed,
    Matched(T),
    Failed(bool),
}

/// An outcome's classification: its variant alone, any remainder dropped.
/// Splitting the input differently may move a remainder across chunks, so
/// equivalence of outcomes is stated over classifications.
pub enum OutcomeClass {
    Undecided,
    Committed,
    Matched,
    Failed(bool),
}

/// The classification of an outcome.
pub open spec fn class_of(r: Outcome) -> OutcomeClass {
    match r {
        Outcome::Undecided => OutcomeClass::Undecided,
        Outcome::Committed => OutcomeClass::Committed,
        Outcome::Matched(_) => OutcomeClass::Matched,
        Outcome::Failed(b) => OutcomeClass::Failed(b),
    }
}

/// The view of a `MatchResult` over a borrowed remainder.
pub open spec fn outcome_of<'a>(r: MatchResult<&'a str>) -> Outcome {
    match r {
        MatchResult::Undecided => Outcome::Undecided,
        MatchResult::Committed => Outcome::Committed,
        MatchResult::Matched(rest) => Outcome::Matched(rest@),
        MatchResult::Failed(b) => Outcome::Failed(b),
    }
}

/// A sink receiving the values a matcher emits. `log()` is the sequence of
/// the views of every value accepted so far.
pub trait Consumer<T: View + ?Sized> {
    spec fn log(&self) -> Seq<<T as View>::V>;

    fn accept(&mut self, value: &T)
        ensures
            final(self).log() == old(self).log().push(value@),
    ;
}

/// A sink that ignores unit emissions (they carry no information).
pub struct DiscardConsumer {
    seen: Ghost<Seq<()>>,
}

impl DiscardConsumer {
    pub fn new() -> (c: Self)
        ensures
            c.log() == Seq::<()>::empty(),
    {
        DiscardConsumer { seen: Ghost(Seq::empty()) }
    }
}

impl Consumer<()> for DiscardConsumer {
    closed spec fn log(&self) -> Seq<()> {
        self.seen@
    }

    fn accept(&mut self, value: &()) {
        proof {
            self.seen@ = self.seen@.push(());
        }
    }
}

/// A sink that keeps an owned copy of every emitted string, for callers that
/// want the captured spans after the calls return.
pub struct CollectConsumer {
    pub received: Vec<String>,
}

impl CollectConsumer {
    pub fn new() -> (c: Self)
        ensures
            c.log() == Seq::<Seq<char>>::empty(),
    {
        let c = CollectConsumer { received: Vec::new() };
        proof {
            assert(c.received.deep_view() =~= Seq::<Seq<char>>::empty());
        }
        c
    }
}

impl Consumer<str> for CollectConsumer {
    closed spec fn log(&self) -> Seq<Seq<char>> {
        self.received.deep_view()
    }

    fn accept(&mut self, value: &str) {
        self.received.push(String::from_str(value));
        proof {
            assert(self.received.deep_view() =~= old(self).received.deep_view().push(value@));
        }
    }
}

/// The matcher abstraction: a stateful recognizer fed one chunk at a time,
/// emitting values of type `T` to a downstream sink.
pub trait Parser<T: View + ?Sized>: Sized {
    /// Well-formedness of the matcher's state, preserved by every call.
    spec fn inv(&self) -> bool;

    /// What one `push` call does: relates the state before, the chunk, the
    /// state after, the values emitted during the call, and the outcome.
    spec fn push_spec(pre: Self, chunk: Seq<char>, post: Self, emitted: Seq<<T as View>::V>, r: Outcome) -> bool;

    /// What one `done` call does: relates the state before, the state after,
    /// the values emitted during the call, and whether the run matched.
    spec fn done_spec(pre: Self, post: Self, emitted: Seq<<T as View>::V>, matched: bool) -> bool;

    fn push<'a, C: Consumer<T>>(&mut self, value: &'a str, downstream: &mut C) -> (r: MatchResult<&'a str>)
        requires
            old(self).inv(),
        ensures
            final(self).inv(),
            old(downstream).log().is_prefix_of(final(downstream).log()),
            Self::push_spec(
                *old(self),
                value@,
                *final(self),
                final(downstream).log().skip(old(downstream).log().len() as int),
                outcome_of(r),
            ),
            (match r {
                MatchResult::Matched(rest) => {
                    &&& rest@.len() <= value@.len()
                    &&& rest@ == value@.skip(value@.len() - rest@.len())
                },
                _ => true,
            }),
    ;

    fn done<C: Consumer<T>>(&mut self, downstream: &mut C) -> (matched: bool)
        requires
            old(self).inv(),
        ensures
            final(self).inv(),
            old(downstream).log().is_prefix_of(final(downstream).log()),
            Self::done_spec(
                *old(self),
                *final(self),
                final(downstream).log().skip(old(downstream).log().len() as int),
                matched,
            ),
    ;
}

/// Two successive extensions of an emission log make one extension whose new
/// part is the concatenation of the two parts.
pub proof fn lemma_log_chain<V>(log0: Seq<V>, log1: Seq<V>, log2: Seq<V>)
    requires
        log0.is_prefix_of(log1),
        log1.is_prefix_of(log2),
    ensures
        log0.is_prefix_of(log2),
        log2.skip(log0.len() as int) == log1.skip(log0.len() as int) + log2.skip(
            log1.len() as int,
        ),
{
    assert(log0 =~= log2.subrange(0, log0.len() as int));
    assert(log2.skip(log0.len() as int) =~= log1.skip(log0.len() as int) + log2.skip(
        log1.len() as int,
    ));
}

} // verus!
