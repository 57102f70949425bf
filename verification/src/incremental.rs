use vstd::prelude::*;

verus! {

/// What one input byte does to a parser: carry on in a new state, finish
/// with a value, or fail.
pub enum Step<S, T, E> {
    More(S),
    Done(T),
    Fail(E),
}

/// The outcome of feeding an input to a parser, at the specification level:
/// still hungry (in a new state), done (with a value and the unconsumed
/// tail), or failed.
pub enum Outcome<S, T, E> {
    Incomplete(S),
    Done(T, Seq<u8>),
    Fail(E),
}

/// The result of one `parse` call. A parser is consumed by `parse`; the one
/// returned inside `Incomplete` is the resumption state, and the slice
/// inside `Done` is the unconsumed tail of the buffer.
pub enum Parsed<'a, P, T, E> {
    Incomplete(P),
    Done(T, &'a [u8]),
    Failed(E),
}

/// Feed the bytes of `s`, one at a time, to the single-byte transition
/// `step`, starting from state `st`. This is the reference semantics that
/// each parser's `parse` method is proved to implement.
pub open spec fn feed<S, T, E>(
    step: spec_fn(S, u8) -> Step<S, T, E>,
    st: S,
    s: Seq<u8>,
) -> Outcome<S, T, E>
    decreases s.len(),
{
    if s.len() == 0 {
        Outcome::Incomplete(st)
    } else {
        match step(st, s.first()) {
            Step::More(st2) => feed(step, st2, s.drop_first()),
            Step::Done(t) => Outcome::Done(t, s.drop_first()),
            Step::Fail(e) => Outcome::Fail(e),
        }
    }
}

/// Resume an earlier outcome with further bytes: an incomplete parser reads
/// them; a finished or failed parse keeps its result, a finished one with
/// the new bytes appended to its tail.
pub open spec fn resume<S, T, E>(
    o: Outcome<S, T, E>,
    step: spec_fn(S, u8) -> Step<S, T, E>,
    s: Seq<u8>,
) -> Outcome<S, T, E> {
    match o {
        Outcome::Incomplete(st) => feed(step, st, s),
        Outcome::Done(t, tail) => Outcome::Done(t, tail + s),
        Outcome::Fail(e) => Outcome::Fail(e),
    }
}

/// Parse split invariance: feeding an input in one piece is the same as
/// feeding any prefix of it and then resuming with the rest. This holds of
/// every parser given by a single-byte transition function.
pub proof fn lemma_split<S, T, E>(
    step: spec_fn(S, u8) -> Step<S, T, E>,
    st: S,
    a: Seq<u8>,
    b: Seq<u8>,
)
    ensures
        feed(step, st, a + b) == resume(feed(step, st, a), step, b),
    decreases a.len(),
{
    if a.len() == 0 {
        assert(a + b =~= b);
    } else {
        assert((a + b).first() == a.first());
        assert((a + b).drop_first() =~= a.drop_first() + b);
        match step(st, a.first()) {
            Step::More(st2) => {
                lemma_split(step, st2, a.drop_first(), b);
            }
            Step::Done(_t) => {}
            Step::Fail(_e) => {}
        }
    }
}

/// A parse that finishes consumes at least one byte: the unconsumed tail
/// is strictly shorter than the input.
pub proof fn lemma_feed_consumes<S, T, E>(step: spec_fn(S, u8) -> Step<S, T, E>, st: S, s: Seq<u8>)
    ensures
        feed(step, st, s) matches Outcome::Done(t, tail) ==> tail.len() < s.len(),
    decreases s.len(),
{
    if s.len() > 0 {
        match step(st, s.first()) {
            Step::More(st2) => {
                lemma_feed_consumes(step, st2, s.drop_first());
            }
            Step::Done(_t) => {}
            Step::Fail(_e) => {}
        }
    }
}

/// The unconsumed tail of a finished parse is a suffix of the input.
pub proof fn lemma_feed_suffix<S, T, E>(step: spec_fn(S, u8) -> Step<S, T, E>, st: S, s: Seq<u8>)
    ensures
        feed(step, st, s) matches Outcome::Done(t, tail) ==> tail.len() < s.len() && tail == s.skip(
            s.len() - tail.len(),
        ),
    decreases s.len(),
{
    if s.len() > 0 {
        match step(st, s.first()) {
            Step::More(st2) => {
                lemma_feed_suffix(step, st2, s.drop_first());
                match feed(step, st2, s.drop_first()) {
                    Outcome::Done(_t, tail) => {
                        assert(s.drop_first().skip(s.len() - 1 - tail.len()) =~= s.skip(
                            s.len() - tail.len(),
                        ));
                    }
                    _ => {}
                }
            }
            Step::Done(_t) => {
                assert(s.drop_first() =~= s.skip(1));
            }
            Step::Fail(_e) => {}
        }
    }
}

/// Feeding a single byte is one application of the transition function.
pub proof fn lemma_feed_one<S, T, E>(step: spec_fn(S, u8) -> Step<S, T, E>, st: S, b: u8)
    ensures
        feed(step, st, seq![b]) == (match step(st, b) {
            Step::More(st2) => Outcome::<S, T, E>::Incomplete(st2),
            Step::Done(t) => Outcome::<S, T, E>::Done(t, Seq::empty()),
            Step::Fail(e) => Outcome::<S, T, E>::Fail(e),
        }),
{
    reveal_with_fuel(feed, 2);
    let s = seq![b];
    assert(s.first() == b);
    assert(s.drop_first() =~= Seq::<u8>::empty());
}

/// Feeding one more byte after a prefix resumes the prefix's outcome with
/// that byte. This is the workhorse for the loop invariants of the
/// executable parsers.
pub proof fn lemma_feed_snoc<S, T, E>(
    step: spec_fn(S, u8) -> Step<S, T, E>,
    st: S,
    s: Seq<u8>,
    b: u8,
)
    ensures
        feed(step, st, s.push(b)) == resume(feed(step, st, s), step, seq![b]),
{
    assert(s + seq![b] =~= s.push(b));
    lemma_split(step, st, s, seq![b]);
}

} // verus!
