//! The decisions of one connection's driver: what to do with bytes that
//! arrive, with a finished response, and with the outcome of a handshake.
//! The caller performs the I/O and runs the handler.

use vstd::prelude::*;
use crate::bytes::append_bytes;
use crate::pipeline::{Pipeline, ready_len, concat_slots};
use crate::request::{Limits, ParseError, ParseModel, Parsed, Request, RequestModel, parse,
    parse_request, lemma_parse_consumes};
use crate::bytes::find_crlf;
use crate::roundtrip::{request_text, well_formed, lemma_round_trip, lemma_prefix_incomplete};
use crate::response::{Body, Response, ResponseModel, BodyModel, encode_response, serialize};

verus! {

/// Where a connection stands.
#[derive(Clone, Copy, Debug, PartialEq, Eq, Structural)]
pub enum Phase {
    /// Waiting for the encryption handshake; no byte is parsed yet.
    Handshake,
    /// Reading requests.
    Open,
    /// A framing error was answered; the connection closes once the
    /// responses in flight are written.
    Closing,
    /// Nothing more is read or written.
    Closed,
}

/// The requests at the front of `s`, what is left of `s` after them, and the
/// framing error that stopped the reading, if any.
pub open spec fn drain_requests(s: Seq<u8>, lim: Limits) -> (Seq<RequestModel>, Seq<u8>, Option<ParseError>)
    decreases s.len(),
    via drain_requests_decreases
{
    match parse_request(s, lim) {
        ParseModel::Done(r, n) => {
            let rest = drain_requests(s.skip(n), lim);
            (seq![r] + rest.0, rest.1, rest.2)
        },
        ParseModel::Incomplete => (Seq::empty(), s, None),
        ParseModel::Failed(e) => (Seq::empty(), s, Some(e)),
    }
}

#[via_fn]
proof fn drain_requests_decreases(s: Seq<u8>, lim: Limits) {
    lemma_parse_consumes(s, lim);
}

/// The response sent for a framing error.
pub open spec fn error_response_model(e: ParseError) -> ResponseModel {
    ResponseModel {
        status: if e == ParseError::HeadersTooLarge { 431 } else { 400 },
        reason: if e == ParseError::HeadersTooLarge {
            seq![72u8, 101, 97, 100, 101, 114, 115, 32, 84, 111, 111, 32, 76, 97, 114, 103, 101]
        } else {
            seq![66u8, 97, 100, 32, 82, 101, 113, 117, 101, 115, 116]
        },
        headers: Seq::empty(),
        body: BodyModel::Empty,
    }
}

/// The response sent for a framing error: `431 Headers Too Large` for an
/// oversized head, `400 Bad Request` for the others.
pub fn error_response(e: ParseError) -> (r: Response)
    ensures
        r@ == error_response_model(e),
{
    let reason: Vec<u8> = if e == ParseError::HeadersTooLarge {
        vec![72u8, 101, 97, 100, 101, 114, 115, 32, 84, 111, 111, 32, 76, 97, 114, 103, 101]
    } else {
        vec![66u8, 97, 100, 32, 82, 101, 113, 117, 101, 115, 116]
    };
    let r = Response {
        status: if e == ParseError::HeadersTooLarge { 431 } else { 400 },
        reason,
        headers: Vec::new(),
        body: Body::Empty,
    };
    assert(r@.reason =~= error_response_model(e).reason);
    assert(r@.headers =~= Seq::<(Seq<u8>, Seq<u8>)>::empty());
    r
}

/// The state of one connection.
pub struct Connection {
    phase: Phase,
    input: Vec<u8>,
    queue: Pipeline,
    limits: Limits,
}

impl Connection {
    pub closed spec fn phase(&self) -> Phase {
        self.phase
    }

    /// Bytes received and not yet taken by a request.
    pub closed spec fn input(&self) -> Seq<u8> {
        self.input@
    }

    /// The id of the oldest request in flight, and the slots in arrival order.
    pub closed spec fn queue(&self) -> (int, Seq<Option<Seq<u8>>>) {
        self.queue@
    }

    pub closed spec fn limits(&self) -> Limits {
        self.limits
    }

    /// The id the next request will get.
    pub open spec fn next_id(&self) -> int {
        self.queue().0 + self.queue().1.len()
    }

    /// A fresh connection; with `encrypted` it first waits for the handshake.
    pub fn new(encrypted: bool, limits: Limits) -> (r: Connection)
        ensures
            r.phase() == (if encrypted { Phase::Handshake } else { Phase::Open }),
            r.input() == Seq::<u8>::empty(),
            r.queue() == (0int, Seq::<Option<Seq<u8>>>::empty()),
            r.limits() == limits,
    {
        let r = Connection {
            phase: if encrypted { Phase::Handshake } else { Phase::Open },
            input: Vec::new(),
            queue: Pipeline::new(),
            limits,
        };
        assert(r.input() =~= Seq::<u8>::empty());
        r
    }

    pub fn phase_now(&self) -> (r: Phase)
        ensures
            r == self.phase(),
    {
        self.phase
    }

    /// Records how the handshake ended: a failed one closes the connection
    /// before any byte is parsed.
    pub fn handshake_finished(&mut self, ok: bool)
        requires
            old(self).phase() == Phase::Handshake,
        ensures
            final(self).phase() == (if ok { Phase::Open } else { Phase::Closed }),
            final(self).input() == old(self).input(),
            final(self).queue() == old(self).queue(),
            final(self).limits() == old(self).limits(),
    {
        self.phase = if ok { Phase::Open } else { Phase::Closed };
    }

    /// Takes in bytes read from the socket and returns the requests that are
    /// now complete, each with its id, in order.
    ///
    /// Outside the `Open` phase nothing is read. A framing error queues its
    /// error response behind the requests before it and moves to `Closing`.
    pub fn receive(&mut self, data: &[u8], date: &[u8]) -> (r: Vec<(usize, Request)>)
        requires
            old(self).next_id() + old(self).input().len() + data@.len() + 1 < usize::MAX,
        ensures
            old(self).phase() != Phase::Open ==> r@.len() == 0 && *final(self) == *old(self),
            old(self).phase() == Phase::Open ==> {
                let d = drain_requests(old(self).input() + data@, old(self).limits());
                &&& r@.len() == d.0.len()
                &&& forall|i: int|
                    0 <= i < r@.len() ==> (#[trigger] r@[i]).1@ == d.0[i] && r@[i].0
                        == old(self).next_id() + i
                &&& final(self).limits() == old(self).limits()
                &&& final(self).queue().0 == old(self).queue().0
                &&& match d.2 {
                    None => {
                        &&& final(self).phase() == Phase::Open
                        &&& final(self).input() == d.1
                        &&& final(self).queue().1 == old(self).queue().1 + Seq::new(
                            d.0.len(),
                            |i: int| None::<Seq<u8>>,
                        )
                    },
                    Some(e) => {
                        &&& final(self).phase() == Phase::Closing
                        &&& final(self).input() == Seq::<u8>::empty()
                        &&& final(self).queue().1 == old(self).queue().1 + Seq::new(
                            d.0.len(),
                            |i: int| None::<Seq<u8>>,
                        ) + seq![Some(encode_response(error_response_model(e), date@))]
                    },
                }
            },
    {
        let mut out: Vec<(usize, Request)> = Vec::new();
        if self.phase != Phase::Open {
            return out;
        }
        let ghost s0 = self.input@ + data@;
        let ghost q0 = self.queue@.1;
        let ghost id0 = self.next_id();
        append_bytes(&mut self.input, data);
        let mut pending: Vec<u8> = Vec::new();
        std::mem::swap(&mut pending, &mut self.input);
        let mut pos: usize = 0;
        let len = pending.len();
        assert(s0.skip(0) =~= s0);
        assert(out@.map_values(|p: (usize, Request)| p.1@) =~= Seq::<RequestModel>::empty());
        assert(drain_requests(s0, self.limits).0 =~= out@.map_values(|p: (usize, Request)| p.1@)
            + drain_requests(s0, self.limits).0);
        assert(self.queue@.1 =~= q0 + Seq::new(0, |i: int| None::<Seq<u8>>));
        loop
            invariant
                self.phase == Phase::Open,
                old(self).phase == Phase::Open,
                q0 == old(self).queue@.1,
                s0 == old(self).input@ + data@,
                id0 == self.queue@.0 + q0.len(),
                self.input@ == Seq::<u8>::empty(),
                pending@ == s0,
                len == s0.len(),
                pos <= len,
                self.queue@.0 == old(self).queue@.0,
                self.limits == old(self).limits,
                id0 == old(self).next_id(),
                id0 + s0.len() + 1 < usize::MAX,
                self.queue@.1 == q0 + Seq::new(out@.len(), |i: int| None::<Seq<u8>>),
                out@.len() <= pos,
                forall|i: int|
                    0 <= i < out@.len() ==> (#[trigger] out@[i]).1@ == drain_requests(
                        s0,
                        self.limits,
                    ).0[i] && out@[i].0 == id0 + i,
                drain_requests(s0, self.limits).0 == out@.map_values(
                    |p: (usize, Request)| p.1@,
                ) + drain_requests(s0.skip(pos as int), self.limits).0,
                drain_requests(s0, self.limits).1 == drain_requests(s0.skip(pos as int), self.limits).1,
                drain_requests(s0, self.limits).2 == drain_requests(s0.skip(pos as int), self.limits).2,
            decreases len - pos,
        {
            let rest = slice_from(pending.as_slice(), pos);
            match parse(rest.as_slice(), self.limits) {
                Parsed::Done(req, n) => {
                    proof {
                        lemma_parse_consumes(rest@, self.limits);
                    }
                    let ghost before = out@;
                    let ghost qb = self.queue@.1;
                    let id = self.queue.enqueue();
                    assert(self.queue@.1 =~= q0 + Seq::new(before.len() + 1, |i: int| None::<Seq<u8>>));
                    out.push((id, req));
                    assert(s0.skip(pos as int).skip(n as int) =~= s0.skip(pos + n));
                    assert(out@.map_values(|p: (usize, Request)| p.1@) =~= before.map_values(
                        |p: (usize, Request)| p.1@,
                    ).push(out@[before.len() as int].1@));
                    pos = pos + n;
                },
                Parsed::Incomplete => {
                    self.input = rest;
                    return out;
                },
                Parsed::Failed(e) => {
                    let ghost qb = self.queue@.1;
                    let id = self.queue.enqueue();
                    let bytes = serialize(&error_response(e), date);
                    let ghost b = bytes@;
                    self.queue.complete(id, bytes);
                    assert(self.queue@.1 =~= qb + seq![Some(b)]);
                    assert(out@.map_values(|p: (usize, Request)| p.1@) + Seq::<RequestModel>::empty()
                        =~= out@.map_values(|p: (usize, Request)| p.1@));
                    self.phase = Phase::Closing;
                    return out;
                },
            }
        }
    }

    /// Records the handler's response to request `id` and returns the bytes
    /// that may now be written: every finished response at the front of the
    /// queue, in arrival order.
    pub fn respond(&mut self, id: usize, resp: &Response, date: &[u8]) -> (r: Vec<u8>)
        requires
            old(self).queue().0 <= id < old(self).next_id(),
            old(self).next_id() <= usize::MAX,
        ensures
            ({
                let q = old(self).queue().1.update(id - old(self).queue().0, Some(encode_response(resp@, date@)));
                &&& r@ == concat_slots(q, ready_len(q) as int)
                &&& final(self).queue().0 == old(self).queue().0 + ready_len(q)
                &&& final(self).queue().1 == q.skip(ready_len(q) as int)
                &&& final(self).phase() == (if old(self).phase() == Phase::Closing && ready_len(q) == q.len() {
                    Phase::Closed
                } else {
                    old(self).phase()
                })
                &&& final(self).input() == old(self).input()
                &&& final(self).limits() == old(self).limits()
            }),
    {
        let bytes = serialize(resp, date);
        self.queue.complete(id, bytes);
        self.flush()
    }

    /// Returns the finished responses at the front of the queue, in arrival
    /// order; a closing connection whose queue runs empty is closed.
    pub fn flush(&mut self) -> (r: Vec<u8>)
        requires
            old(self).next_id() <= usize::MAX,
        ensures
            ({
                let q = old(self).queue().1;
                &&& r@ == concat_slots(q, ready_len(q) as int)
                &&& final(self).queue().0 == old(self).queue().0 + ready_len(q)
                &&& final(self).queue().1 == q.skip(ready_len(q) as int)
                &&& final(self).phase() == (if old(self).phase() == Phase::Closing && ready_len(q) == q.len() {
                    Phase::Closed
                } else {
                    old(self).phase()
                })
                &&& final(self).input() == old(self).input()
                &&& final(self).limits() == old(self).limits()
            }),
    {
        let out = self.queue.take_ready();
        if self.phase == Phase::Closing && self.queue.len() == 0 {
            self.phase = Phase::Closed;
        }
        out
    }
}

/// A fresh vector holding `s[from..]`.
fn slice_from(s: &[u8], from: usize) -> (r: Vec<u8>)
    requires
        from <= s@.len(),
    ensures
        r@ == s@.skip(from as int),
{
    let r = crate::bytes::copy_range(s, from, s.len());
    assert(r@ =~= s@.skip(from as int));
    r
}

/// However the bytes of a well-formed request are split across reads, the
/// connection reads it exactly once: while only part of it has arrived no
/// request comes out and every byte stays buffered, and once all of it has
/// arrived that one request comes out and nothing is left over.
pub proof fn lemma_split_delivery(r: RequestModel, p: int, lim: Limits)
    requires
        well_formed(r, lim),
        0 <= p <= request_text(r).len(),
    ensures
        p < request_text(r).len() ==> drain_requests(request_text(r).take(p), lim) == (
            Seq::<RequestModel>::empty(),
            request_text(r).take(p),
            None::<ParseError>,
        ),
        drain_requests(request_text(r).take(p) + request_text(r).skip(p), lim) == (
            seq![r],
            Seq::<u8>::empty(),
            None::<ParseError>,
        ),
{
    let t = request_text(r);
    if p < t.len() {
        lemma_prefix_incomplete(r, p, lim);
    }
    assert(t.take(p) + t.skip(p) =~= t);
    lemma_round_trip(r, Seq::empty(), lim);
    assert(t + Seq::<u8>::empty() =~= t);
    let e = t.skip(t.len() as int);
    assert(e =~= Seq::<u8>::empty());
    assert(find_crlf(e, 0) is None);
    assert(drain_requests(e, lim) == (Seq::<RequestModel>::empty(), e, None::<ParseError>));
    assert(seq![r] + Seq::<RequestModel>::empty() =~= seq![r]);
}

} // verus!
