use std::collections::VecDeque;
use vstd::prelude::*;

verus! {

/// A queue of messages: what is sent comes out in the order it was sent.
pub trait Channel<T>: Sized {
    /// The messages waiting in the channel, oldest first.
    spec fn pending(&self) -> Seq<T>;

    /// Appends a value at the tail. Always succeeds.
    fn send(&mut self, value: T)
        ensures
            final(self).pending() == old(self).pending().push(value),
    ;

    /// Takes the oldest value out, or returns `None` when nothing is waiting.
    fn recv(&mut self) -> (r: Option<T>)
        ensures
            old(self).pending().len() == 0 ==> r.is_none() && final(self).pending() == old(self).pending(),
            old(self).pending().len() > 0 ==> r == Some(old(self).pending()[0])
                && final(self).pending() == old(self).pending().subrange(1, old(self).pending().len() as int),
    ;
}

/// "Channel queue": a channel kept in a double-ended queue.
///
/// One value of this type is one queue. Coroutines that must share a queue
/// hold it through a shared handle of the host's choice.
pub struct Cheue<T> {
    messages: VecDeque<T>,
}

impl<T> View for Cheue<T> {
    type V = Seq<T>;

    closed spec fn view(&self) -> Seq<T> {
        self.messages@
    }
}

impl<T> Cheue<T> {
    /// Creates an empty channel.
    pub fn new() -> (r: Self)
        ensures
            r@ == Seq::<T>::empty(),
    {
        Cheue { messages: VecDeque::new() }
    }

    /// The number of messages waiting.
    pub fn len(&self) -> (r: usize)
        ensures
            r == self@.len(),
    {
        self.messages.len()
    }
}

impl<T> Channel<T> for Cheue<T> {
    open spec fn pending(&self) -> Seq<T> {
        self@
    }

    fn send(&mut self, value: T) {
        self.messages.push_back(value);
    }

    fn recv(&mut self) -> (r: Option<T>) {
        self.messages.pop_front()
    }
}

/// What a channel holds after `vs` were sent, in order, to one holding `q`.
pub open spec fn after_sends<T>(q: Seq<T>, vs: Seq<T>) -> Seq<T>
    decreases vs.len(),
{
    if vs.len() == 0 {
        q
    } else {
        after_sends(q, vs.drop_last()).push(vs.last())
    }
}

/// The results of `n` successive receives from a channel holding `q`.
pub open spec fn receives<T>(q: Seq<T>, n: nat) -> Seq<Option<T>>
    decreases n,
{
    if n == 0 {
        Seq::empty()
    } else if q.len() == 0 {
        seq![None].add(receives(q, (n - 1) as nat))
    } else {
        seq![Some(q[0])].add(receives(q.subrange(1, q.len() as int), (n - 1) as nat))
    }
}

/// Values sent to an empty channel with no receive in between come out of
/// successive receives in the order they were sent, and then the channel
/// reports that it is empty.
pub proof fn lemma_channel_fifo<T>(vs: Seq<T>)
    ensures
        after_sends(Seq::<T>::empty(), vs) == vs,
        receives(after_sends(Seq::<T>::empty(), vs), vs.len() + 1) == vs.map_values(|v: T| Some(v)).push(None),
{
    lemma_after_sends_appends(Seq::<T>::empty(), vs);
    assert(Seq::<T>::empty() + vs =~= vs);
    lemma_receives_drains(vs);
}

proof fn lemma_after_sends_appends<T>(q: Seq<T>, vs: Seq<T>)
    ensures
        after_sends(q, vs) == q + vs,
    decreases vs.len(),
{
    if vs.len() > 0 {
        lemma_after_sends_appends(q, vs.drop_last());
        assert((q + vs.drop_last()).push(vs.last()) =~= q + vs);
    } else {
        assert(q + vs =~= q);
    }
}

proof fn lemma_receives_drains<T>(q: Seq<T>)
    ensures
        receives(q, q.len() + 1) == q.map_values(|v: T| Some(v)).push(None),
    decreases q.len(),
{
    if q.len() == 0 {
        assert(receives(q, 0) =~= Seq::<Option<T>>::empty());
        assert(receives(q, 1) =~= seq![None]);
        assert(q.map_values(|v: T| Some(v)).push(None) =~= seq![None]);
    } else {
        let rest = q.subrange(1, q.len() as int);
        lemma_receives_drains(rest);
        assert(seq![Some(q[0])].add(rest.map_values(|v: T| Some(v)).push(None))
            =~= q.map_values(|v: T| Some(v)).push(None));
    }
}

} // verus!
