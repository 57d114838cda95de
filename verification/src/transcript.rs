//! The transcript from which the verifier's challenges are drawn.
use vstd::prelude::*;

use crate::field::{le_bytes, PrimeField};

verus! {

/// What happened to a transcript since it was made, in order: `Some(bytes)` where bytes were
/// put in, and `None` where a field element was drawn.
pub type Log = Seq<Option<Seq<u8>>>;

/// A source of challenges that are determined by what it has absorbed.
pub trait FiatShamirRng<F: PrimeField>: Sized {
    /// What happened to the transcript so far.
    spec fn log(&self) -> Log;

    /// The value of the field element that comes next after the given history.
    spec fn drawn(log: Log) -> int;

    /// A transcript that has seen `seed` and nothing else.
    fn from_seed(seed: &Vec<u8>) -> (r: Self)
        ensures
            r.log() == seq![Some(seed@)],
    ;

    /// Refreshes the transcript with `input`.
    fn absorb(&mut self, input: &Vec<u8>)
        ensures
            final(self).log() == old(self).log().push(Some(input@)),
    ;

    /// Draws a field element.
    fn rand(&mut self) -> (r: F)
        ensures
            r.value() == Self::drawn(old(self).log()),
            final(self).log() == old(self).log().push(None),
    ;
}

/// The history after a challenge has been drawn and put back in.
pub open spec fn after_challenge<F: PrimeField, R: FiatShamirRng<F>>(log: Log) -> Log {
    log.push(None).push(Some(le_bytes(R::drawn(log), F::byte_len())))
}

/// The history after `count` challenges have been drawn and put back in, one after another.
pub open spec fn after_challenges<F: PrimeField, R: FiatShamirRng<F>>(
    log: Log,
    count: nat,
) -> Log
    decreases count,
{
    if count == 0 {
        log
    } else {
        after_challenge::<F, R>(after_challenges::<F, R>(log, (count - 1) as nat))
    }
}

/// Draws a challenge and puts it back into the transcript.
pub fn draw_challenge<F: PrimeField, R: FiatShamirRng<F>>(rng: &mut R) -> (r: F)
    ensures
        r.value() == R::drawn(old(rng).log()),
        final(rng).log() == after_challenge::<F, R>(old(rng).log()),
{
    let challenge = rng.rand();
    rng.absorb(&challenge.to_bytes());
    challenge
}

/// Drawing challenges and putting them back in keeps the earlier history, and adds two
/// entries for each.
pub proof fn lemma_after_challenges<F: PrimeField, R: FiatShamirRng<F>>(log: Log, count: nat)
    ensures
        after_challenges::<F, R>(log, count).len() == log.len() + 2 * count,
        log.is_prefix_of(after_challenges::<F, R>(log, count)),
    decreases count,
{
    if count > 0 {
        lemma_after_challenges::<F, R>(log, (count - 1) as nat);
    }
}

} // verus!
