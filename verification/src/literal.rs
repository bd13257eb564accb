use crate::Consumer;
use crate::MatchResult;
use crate::Outcome;
use crate::Parser;
use vstd::prelude::*;
use vstd::string::StrSliceExecFns;
use vstd::string::StringExecFns;

verus! {

/// State of the literal matcher: the number of target characters already
/// confirmed, or a terminal marker carrying whether the run matched.
#[derive(Clone, Copy, PartialEq, Eq, Debug)]
pub enum ConstantParserState {
    AtOffset(usize),
    AtEnd(bool),
}

/// A leaf matcher recognizing one fixed string, possibly across several
/// chunks. It emits `()` once, at the moment the whole target is recognized.
pub struct ConstantParser {
    constant: String,
    state: ConstantParserState,
}

impl ConstantParser {
    /// The string this matcher recognizes.
    pub closed spec fn target(&self) -> Seq<char> {
        self.constant@
    }

    /// The current position in the result automaton.
    pub closed spec fn state_spec(&self) -> ConstantParserState {
        self.state
    }
}

/// What one `push` of `chunk` does to a literal matcher: complete the target
/// and leave the unconsumed suffix, consume the whole chunk and wait, or fail
/// at the first mismatch; terminal states reply idempotently.
pub open spec fn lit_push(
    pre: ConstantParser,
    chunk: Seq<char>,
    post: ConstantParser,
    emitted: Seq<()>,
    r: Outcome,
) -> bool {
    &&& post.target() == pre.target()
    &&& match pre.state_spec() {
        ConstantParserState::AtOffset(i) => {
            let t = pre.target().skip(i as int);
            if t.is_prefix_of(chunk) {
                &&& post.state_spec() == ConstantParserState::AtEnd(true)
                &&& emitted == seq![()]
                &&& r == Outcome::Matched(chunk.skip(t.len() as int))
            } else if chunk.is_prefix_of(t) {
                &&& post.state_spec() == ConstantParserState::AtOffset((i + chunk.len()) as usize)
                &&& emitted == Seq::<()>::empty()
                &&& r == Outcome::Undecided
            } else {
                &&& post.state_spec() == ConstantParserState::AtEnd(false)
                &&& emitted == Seq::<()>::empty()
                &&& r == Outcome::Failed(true)
            }
        },
        ConstantParserState::AtEnd(true) => {
            &&& post.state_spec() == pre.state_spec()
            &&& emitted == Seq::<()>::empty()
            &&& r == Outcome::Matched(chunk)
        },
        ConstantParserState::AtEnd(false) => {
            &&& post.state_spec() == pre.state_spec()
            &&& emitted == Seq::<()>::empty()
            &&& r == Outcome::Failed(true)
        },
    }
}

/// What `done` does to a literal matcher: report whether the run matched and
/// reset the position to the start of the target.
pub open spec fn lit_done(
    pre: ConstantParser,
    post: ConstantParser,
    emitted: Seq<()>,
    matched: bool,
) -> bool {
    &&& post.target() == pre.target()
    &&& post.state_spec() == ConstantParserState::AtOffset(0)
    &&& emitted == Seq::<()>::empty()
    &&& matched == (pre.state_spec() == ConstantParserState::AtEnd(true))
}

/// Whether `n` characters of `a` starting at `a_off` equal the `n` characters
/// of `b` starting at `b_off`.
fn chars_agree(a: &str, a_off: usize, b: &str, b_off: usize, n: usize) -> (agree: bool)
    requires
        a_off + n <= a@.len(),
        b_off + n <= b@.len(),
    ensures
        agree == (a@.subrange(a_off as int, a_off + n) == b@.subrange(b_off as int, b_off + n)),
{
    let ghost asub = a@.subrange(a_off as int, a_off + n);
    let ghost bsub = b@.subrange(b_off as int, b_off + n);
    // both character counts fit in usize, so the indices below cannot overflow
    let _alen: usize = a.unicode_len();
    let _blen: usize = b.unicode_len();
    let mut j: usize = 0;
    while j < n
        invariant
            j <= n,
            a_off + n <= a@.len(),
            b_off + n <= b@.len(),
            a@.len() <= usize::MAX,
            b@.len() <= usize::MAX,
            asub == a@.subrange(a_off as int, a_off + n),
            bsub == b@.subrange(b_off as int, b_off + n),
            forall|k: int| 0 <= k < j ==> asub[k] == bsub[k],
        decreases n - j,
    {
        let ca = a.get_char(a_off + j);
        let cb = b.get_char(b_off + j);
        if ca != cb {
            proof {
                assert(asub[j as int] != bsub[j as int]);
            }
            return false;
        }
        proof {
            assert(asub[j as int] == bsub[j as int]);
        }
        j += 1;
    }
    proof {
        assert(asub =~= bsub);
    }
    true
}

impl Parser<()> for ConstantParser {
    open spec fn inv(&self) -> bool {
        &&& self.target().len() <= usize::MAX
        &&& match self.state_spec() {
            ConstantParserState::AtOffset(i) => i <= self.target().len(),
            ConstantParserState::AtEnd(_) => true,
        }
    }

    open spec fn push_spec(
        pre: Self,
        chunk: Seq<char>,
        post: Self,
        emitted: Seq<()>,
        r: Outcome,
    ) -> bool {
        lit_push(pre, chunk, post, emitted, r)
    }

    open spec fn done_spec(pre: Self, post: Self, emitted: Seq<()>, matched: bool) -> bool {
        lit_done(pre, post, emitted, matched)
    }

    fn push<'a, C: Consumer<()>>(&mut self, value: &'a str, downstream: &mut C) -> (r: MatchResult<
        &'a str,
    >) {
        let ghost pre = *self;
        let ghost log0 = downstream.log();
        match self.state {
            ConstantParserState::AtOffset(index) => {
                let ghost t = pre.target().skip(index as int);
                let clen = self.constant.as_str().unicode_len();
                let slen = value.unicode_len();
                let remaining = clen - index;
                proof {
                    assert(t =~= self.constant@.subrange(index as int, clen as int));
                    assert(t.len() == remaining);
                }
                if remaining <= slen && chars_agree(value, 0, self.constant.as_str(), index, remaining) {
                    proof {
                        assert(value@.subrange(0, remaining as int) == self.constant@.subrange(
                            index as int,
                            index + remaining,
                        ));
                        assert(t =~= value@.subrange(0, t.len() as int));
                        assert(t.is_prefix_of(value@));
                    }
                    downstream.accept(&());
                    self.state = ConstantParserState::AtEnd(true);
                    let rest = value.substring_char(remaining, slen);
                    proof {
                        assert(rest@ =~= value@.skip(t.len() as int));
                        assert(downstream.log() == log0.push(()));
                        assert(downstream.log().skip(log0.len() as int) =~= seq![()]);
                        assert(log0.is_prefix_of(downstream.log()));
                        assert(rest@ =~= value@.skip(value@.len() - rest@.len()));
                    }
                    MatchResult::Matched(rest)
                } else if slen < remaining && chars_agree(value, 0, self.constant.as_str(), index, slen) {
                    proof {
                        // the whole chunk is a proper prefix of the pending target
                        assert(value@ =~= value@.subrange(0, slen as int));
                        assert(value@ =~= t.subrange(0, slen as int)) by {
                            assert(t.subrange(0, slen as int) =~= self.constant@.subrange(
                                index as int,
                                index + slen,
                            ));
                        }
                        assert(value@.is_prefix_of(t));
                        assert(!t.is_prefix_of(value@));
                        assert(downstream.log().skip(log0.len() as int) =~= Seq::<()>::empty());
                        assert(log0.is_prefix_of(downstream.log()));
                    }
                    self.state = ConstantParserState::AtOffset(index + slen);
                    MatchResult::Undecided
                } else {
                    proof {
                        // neither side is a prefix of the other: a mismatch exists
                        if t.is_prefix_of(value@) {
                            assert(remaining <= slen);
                            assert(value@.subrange(0, remaining as int) =~= self.constant@.subrange(
                                index as int,
                                index + remaining,
                            )) by {
                                assert(t =~= value@.subrange(0, t.len() as int));
                                assert(t =~= self.constant@.subrange(index as int, index + remaining));
                            }
                            assert(false);
                        }
                        if value@.is_prefix_of(t) {
                            if slen < remaining {
                                assert(value@.subrange(0, slen as int) =~= self.constant@.subrange(
                                    index as int,
                                    index + slen,
                                )) by {
                                    assert(value@ =~= value@.subrange(0, slen as int));
                                    assert(value@ =~= t.subrange(0, slen as int));
                                    assert(t.subrange(0, slen as int) =~= self.constant@.subrange(
                                        index as int,
                                        index + slen,
                                    ));
                                }
                                assert(false);
                            } else {
                                assert(slen == remaining);
                                assert(t =~= value@);
                                assert(t.is_prefix_of(value@));
                                assert(false);
                            }
                        }
                        assert(downstream.log().skip(log0.len() as int) =~= Seq::<()>::empty());
                        assert(log0.is_prefix_of(downstream.log()));
                    }
                    self.state = ConstantParserState::AtEnd(false);
                    MatchResult::Failed(true)
                }
            },
            ConstantParserState::AtEnd(true) => {
                proof {
                    assert(downstream.log().skip(log0.len() as int) =~= Seq::<()>::empty());
                    assert(log0.is_prefix_of(downstream.log()));
                    assert(value@ =~= value@.skip(0));
                }
                MatchResult::Matched(value)
            },
            ConstantParserState::AtEnd(false) => {
                proof {
                    assert(downstream.log().skip(log0.len() as int) =~= Seq::<()>::empty());
                    assert(log0.is_prefix_of(downstream.log()));
                }
                MatchResult::Failed(true)
            },
        }
    }

    fn done<C: Consumer<()>>(&mut self, downstream: &mut C) -> (matched: bool) {
        let ghost log0 = downstream.log();
        let matched = match self.state {
            ConstantParserState::AtEnd(true) => true,
            _ => false,
        };
        self.state = ConstantParserState::AtOffset(0);
        proof {
            assert(downstream.log().skip(log0.len() as int) =~= Seq::<()>::empty());
            assert(log0.is_prefix_of(downstream.log()));
        }
        matched
    }
}

/// Builds a literal matcher for the given target string, ready for its first
/// run.
pub fn constant(string: String) -> (p: ConstantParser)
    ensures
        p.inv(),
        p.target() == string@,
        p.state_spec() == ConstantParserState::AtOffset(0),
{
    // the target's character count fits in usize, which the invariant records
    let _chars: usize = string.as_str().unicode_len();
    ConstantParser { constant: string, state: ConstantParserState::AtOffset(0) }
}

} // verus!
