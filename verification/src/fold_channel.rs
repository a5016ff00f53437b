//! The buffers of a channel whose readers see everything that was sent,
//! folded into one value.

use vstd::prelude::*;

verus! {

/// The two buffers of a channel that folds what is sent into one value:
/// the one that the sender adds to, and the one that the readers see.
/// At each send the two change places, so that a reader is never made to
/// wait for the sender and the sender never for a reader.
pub struct Buffers<A> {
    pub acc: A,
    pub published: A,
}

/// `value` is what `f` makes of `start` and the events `events`, folded
/// in one after the other.
pub open spec fn folds_to<T, A, F: Fn(A, T) -> A>(f: F, start: A, events: Seq<T>, value: A) -> bool
    decreases events.len(),
{
    if events.len() == 0 {
        value == start
    } else {
        exists|before: A|
            folds_to(f, start, events.drop_last(), before) && #[trigger] call_ensures(
                f,
                (before, events.last()),
                value,
            )
    }
}

impl<A> Buffers<A> {
    /// The buffers of a new channel, both holding the value with which the
    /// channel starts.
    pub fn new(start: A, copy: A) -> (r: Buffers<A>)
        requires
            copy == start,
        ensures
            r.acc == start,
            r.published == start,
    {
        Buffers { acc: start, published: copy }
    }

    /// Sends an event: folds it into the accumulator, publishes the
    /// accumulator, and folds the event into what was published before,
    /// which is the accumulator from now on. `copy` is the event once
    /// more, one for each buffer.
    pub fn send<T, F: Fn(A, T) -> A>(self, f: &F, t: T, copy: T) -> (r: Buffers<A>)
        requires
            copy == t,
            forall|a: A, t: T| #[trigger] call_requires(*f, (a, t)),
        ensures
            call_ensures(*f, (self.acc, t), r.published),
            call_ensures(*f, (self.published, t), r.acc),
    {
        let Buffers { acc, published } = self;
        let merged = f(acc, copy);
        let refilled = f(published, t);
        Buffers { acc: refilled, published: merged }
    }
}

/// Nothing that is sent is lost: where both buffers hold all the events
/// so far, folded in the order in which they were sent, they hold the new
/// event too after it is sent. A reader who looks only now and then sees
/// all of them at once.
pub proof fn lemma_send_keeps_all<T, A, F: Fn(A, T) -> A>(
    f: F,
    start: A,
    events: Seq<T>,
    before: Buffers<A>,
    t: T,
    after: Buffers<A>,
)
    requires
        folds_to(f, start, events, before.acc),
        folds_to(f, start, events, before.published),
        call_ensures(f, (before.acc, t), after.published),
        call_ensures(f, (before.published, t), after.acc),
    ensures
        folds_to(f, start, events.push(t), after.acc),
        folds_to(f, start, events.push(t), after.published),
{
    let longer = events.push(t);
    assert(longer.drop_last() =~= events);
    assert(longer.last() == t);
}

} // verus!
