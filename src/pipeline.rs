//! The in-flight queue of one connection: responses leave in the order their
//! requests arrived, whatever order the handler finishes them in.

use vstd::prelude::*;
use crate::bytes::append_bytes;

verus! {

/// The queue of requests whose responses have not been written yet.
///
/// The request with id `first + i` sits at `slots[i]`; a slot holds the
/// serialized response once the handler has finished it.
pub struct Pipeline {
    first: usize,
    slots: Vec<Option<Vec<u8>>>,
}

/// The leading run of finished responses.
pub open spec fn ready_len(slots: Seq<Option<Seq<u8>>>) -> nat
    decreases slots.len(),
{
    if slots.len() == 0 {
        0
    } else if slots[0] is Some {
        1 + ready_len(slots.drop_first())
    } else {
        0
    }
}

/// The bytes of the first `k` slots, in order (empty for an unfinished one).
pub open spec fn concat_slots(slots: Seq<Option<Seq<u8>>>, k: int) -> Seq<u8>
    decreases k,
{
    if k <= 0 {
        Seq::empty()
    } else {
        concat_slots(slots, k - 1) + match slots[k - 1] {
            Some(b) => b,
            None => Seq::empty(),
        }
    }
}

/// The bytes of a slot, if its response is there.
pub open spec fn slot_view(o: Option<Vec<u8>>) -> Option<Seq<u8>> {
    match o {
        Some(b) => Some(b@),
        None => None,
    }
}

impl View for Pipeline {
    type V = (int, Seq<Option<Seq<u8>>>);

    /// The id of the oldest request in flight, and the slots in arrival order.
    closed spec fn view(&self) -> (int, Seq<Option<Seq<u8>>>) {
        (
            self.first as int,
            self.slots@.map_values(|o: Option<Vec<u8>>| slot_view(o)),
        )
    }
}

impl Pipeline {
    /// An empty queue; the first request gets id 0.
    pub fn new() -> (r: Pipeline)
        ensures
            r@.0 == 0,
            r@.1 == Seq::<Option<Seq<u8>>>::empty(),
    {
        let r = Pipeline { first: 0, slots: Vec::new() };
        assert(r@.1 =~= Seq::<Option<Seq<u8>>>::empty());
        r
    }

    /// Number of requests in flight.
    pub fn len(&self) -> (r: usize)
        ensures
            r == self@.1.len(),
    {
        self.slots.len()
    }

    /// Adds a request at the back; returns its id.
    pub fn enqueue(&mut self) -> (id: usize)
        requires
            old(self)@.0 + old(self)@.1.len() < usize::MAX,
        ensures
            id == old(self)@.0 + old(self)@.1.len(),
            final(self)@.0 == old(self)@.0,
            final(self)@.1 == old(self)@.1.push(None),
    {
        let id = self.first + self.slots.len();
        let ghost before = self@.1;
        self.slots.push(None);
        assert(self@.1 =~= before.push(None));
        id
    }

    /// Stores the response of request `id`.
    pub fn complete(&mut self, id: usize, bytes: Vec<u8>)
        requires
            old(self)@.0 <= id < old(self)@.0 + old(self)@.1.len(),
        ensures
            final(self)@.0 == old(self)@.0,
            final(self)@.1 == old(self)@.1.update(id - old(self)@.0, Some(bytes@)),
    {
        let ghost before = self@.1;
        let ghost b = bytes@;
        let i = id - self.first;
        self.slots.set(i, Some(bytes));
        assert(self@.1 =~= before.update(i as int, Some(b)));
    }

    /// Takes the finished responses at the front of the queue, in arrival
    /// order, up to the first request that is still in the handler.
    pub fn take_ready(&mut self) -> (r: Vec<u8>)
        requires
            old(self)@.0 + old(self)@.1.len() <= usize::MAX,
        ensures
            r@ == concat_slots(old(self)@.1, ready_len(old(self)@.1) as int),
            final(self)@.0 == old(self)@.0 + ready_len(old(self)@.1),
            final(self)@.1 == old(self)@.1.skip(ready_len(old(self)@.1) as int),
            ready_len(old(self)@.1) <= old(self)@.1.len(),
    {
        proof {
            lemma_ready_len_bound(self@.1);
        }
        let ghost s0 = self@.1;
        let mut out: Vec<u8> = Vec::new();
        let mut k: usize = 0;
        assert(s0.skip(0) =~= s0);
        while self.slots.len() > 0 && self.slots[0].is_some()
            invariant
                s0 == old(self)@.1,
                self.first == old(self)@.0,
                self.first + s0.len() <= usize::MAX,
                k <= s0.len(),
                self@.1 == s0.skip(k as int),
                ready_len(s0) == k + ready_len(s0.skip(k as int)),
                out@ == concat_slots(s0, k as int),
            decreases self.slots@.len(),
        {
            let ghost before = self@.1;
            let slot = self.slots.remove(0);
            assert(self@.1 =~= before.drop_first());
            assert(before[0] == s0[k as int]);
            assert(s0.skip(k as int).drop_first() =~= s0.skip(k + 1));
            match slot {
                Some(b) => {
                    append_bytes(&mut out, b.as_slice());
                },
                None => {},
            }
            k = k + 1;
        }
        proof {
            if self@.1.len() > 0 {
                assert(s0.skip(k as int)[0] == self@.1[0]);
            }
        }
        self.first = self.first + k;
        out
    }
}

pub proof fn lemma_ready_len_bound(slots: Seq<Option<Seq<u8>>>)
    ensures
        ready_len(slots) <= slots.len(),
    decreases slots.len(),
{
    if slots.len() > 0 {
        lemma_ready_len_bound(slots.drop_first());
    }
}

/// Once every request in flight has its response, one call of `take_ready`
/// hands out all of them, in the order the requests arrived.
pub proof fn lemma_all_finished_in_order(slots: Seq<Option<Seq<u8>>>)
    requires
        forall|i: int| 0 <= i < slots.len() ==> (#[trigger] slots[i]) is Some,
    ensures
        ready_len(slots) == slots.len(),
        concat_slots(slots, slots.len() as int) == concat_slots(slots, ready_len(slots) as int),
    decreases slots.len(),
{
    if slots.len() > 0 {
        assert forall|i: int| 0 <= i < slots.drop_first().len() implies (
        #[trigger] slots.drop_first()[i]) is Some by {
            assert(slots.drop_first()[i] == slots[i + 1]);
        }
        lemma_all_finished_in_order(slots.drop_first());
    }
}

/// Responses written by successive flushes add up to the responses in
/// arrival order: what one flush hands out for the first `k` requests,
/// followed by what a later one hands out for the next `m`, is what a single
/// flush of all `k + m` would have written.
pub proof fn lemma_flushes_concatenate(slots: Seq<Option<Seq<u8>>>, k: int, m: int)
    requires
        0 <= k,
        0 <= m,
        k + m <= slots.len(),
    ensures
        concat_slots(slots, k) + concat_slots(slots.skip(k), m) == concat_slots(slots, k + m),
    decreases m,
{
    if m == 0 {
        assert(concat_slots(slots, k) + Seq::<u8>::empty() =~= concat_slots(slots, k));
    } else {
        lemma_flushes_concatenate(slots, k, m - 1);
        assert(slots.skip(k)[m - 1] == slots[k + m - 1]);
        let tail = match slots[k + m - 1] {
            Some(b) => b,
            None => Seq::<u8>::empty(),
        };
        assert(concat_slots(slots, k) + concat_slots(slots.skip(k), m) =~= concat_slots(slots, k)
            + concat_slots(slots.skip(k), m - 1) + tail);
    }
}

} // verus!
