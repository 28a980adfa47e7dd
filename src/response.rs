//! Response serializer: status line, the caller's headers, an injected `Date`
//! header, one body-framing header, the empty line, then the body.

use vstd::prelude::*;
use crate::bytes::append_bytes;
use crate::number::{numeral_text, push_numeral};
use crate::request::{Header, headers_view, eq_ignore_case, content_length_name, count_named,
    last_value, lower,
    transfer_encoding_name, chunked_name, eq_ignore_ascii_case};

verus! {

/// The body of a response.
pub enum Body {
    Empty,
    /// A buffer whose length is known up front.
    Fixed(Vec<u8>),
    /// A finite sequence of chunks, sent with chunked coding.
    Chunks(Vec<Vec<u8>>),
}

/// The value a [`Body`] stands for.
pub ghost enum BodyModel {
    Empty,
    Fixed(Seq<u8>),
    Chunks(Seq<Seq<u8>>),
}

impl View for Body {
    type V = BodyModel;

    open spec fn view(&self) -> BodyModel {
        match self {
            Body::Empty => BodyModel::Empty,
            Body::Fixed(b) => BodyModel::Fixed(b@),
            Body::Chunks(cs) => BodyModel::Chunks(cs@.map_values(|c: Vec<u8>| c@)),
        }
    }
}

/// A response as the handler builds it.
pub struct Response {
    pub status: u16,
    pub reason: Vec<u8>,
    pub headers: Vec<Header>,
    pub body: Body,
}

/// The value a [`Response`] stands for.
pub ghost struct ResponseModel {
    pub status: u16,
    pub reason: Seq<u8>,
    pub headers: Seq<(Seq<u8>, Seq<u8>)>,
    pub body: BodyModel,
}

impl View for Response {
    type V = ResponseModel;

    open spec fn view(&self) -> ResponseModel {
        ResponseModel {
            status: self.status,
            reason: self.reason@,
            headers: headers_view(self.headers@),
            body: self.body@,
        }
    }
}

/// `\r\n`
pub open spec fn crlf() -> Seq<u8> {
    seq![13u8, 10]
}

/// `HTTP/1.1 `
pub open spec fn version_prefix() -> Seq<u8> {
    seq![72u8, 84, 84, 80, 47, 49, 46, 49, 32]
}

/// `date`
pub open spec fn date_name() -> Seq<u8> {
    seq![100u8, 97, 116, 101]
}

/// `Date`
pub open spec fn date_title() -> Seq<u8> {
    seq![68u8, 97, 116, 101]
}

/// `Content-Length`
pub open spec fn content_length_title() -> Seq<u8> {
    seq![67u8, 111, 110, 116, 101, 110, 116, 45, 76, 101, 110, 103, 116, 104]
}

/// `Transfer-Encoding`
pub open spec fn transfer_encoding_title() -> Seq<u8> {
    seq![84u8, 114, 97, 110, 115, 102, 101, 114, 45, 69, 110, 99, 111, 100, 105, 110, 103]
}

/// `0\r\n\r\n`: the last chunk and the end of the chunked body.
pub open spec fn last_chunk() -> Seq<u8> {
    seq![48u8, 13, 10, 13, 10]
}

/// Headers the serializer writes itself, so a caller's copy is left out.
pub open spec fn is_managed_header(name: Seq<u8>) -> bool {
    eq_ignore_case(name, date_name()) || eq_ignore_case(name, content_length_name())
        || eq_ignore_case(name, transfer_encoding_name())
}

/// The caller's headers, in order, without the managed ones.
pub open spec fn kept_headers(hs: Seq<(Seq<u8>, Seq<u8>)>) -> Seq<(Seq<u8>, Seq<u8>)>
    decreases hs.len(),
{
    if hs.len() == 0 {
        Seq::empty()
    } else if is_managed_header(hs.last().0) {
        kept_headers(hs.drop_last())
    } else {
        kept_headers(hs.drop_last()).push(hs.last())
    }
}

/// The header that tells the peer how the body is delimited.
pub open spec fn framing_header(b: BodyModel) -> (Seq<u8>, Seq<u8>) {
    match b {
        BodyModel::Empty => (content_length_title(), numeral_text(0, 10)),
        BodyModel::Fixed(x) => (content_length_title(), numeral_text(x.len(), 10)),
        BodyModel::Chunks(_) => (transfer_encoding_title(), chunked_name()),
    }
}

/// Every header that goes on the wire, in order.
pub open spec fn response_headers(r: ResponseModel, date: Seq<u8>) -> Seq<(Seq<u8>, Seq<u8>)> {
    kept_headers(r.headers).push((date_title(), date)).push(framing_header(r.body))
}

/// `name: value\r\n`
pub open spec fn header_line(h: (Seq<u8>, Seq<u8>)) -> Seq<u8> {
    h.0 + seq![58u8, 32] + h.1 + crlf()
}

/// The header lines of `hs`, in order.
pub open spec fn header_block(hs: Seq<(Seq<u8>, Seq<u8>)>) -> Seq<u8>
    decreases hs.len(),
{
    if hs.len() == 0 {
        Seq::empty()
    } else {
        header_block(hs.drop_last()) + header_line(hs.last())
    }
}

/// One chunk on the wire: its size in hex, the data, each line terminated.
pub open spec fn chunk_text(c: Seq<u8>) -> Seq<u8> {
    numeral_text(c.len(), 16) + crlf() + c + crlf()
}

/// The chunks of `cs` on the wire; an empty chunk is skipped, since a
/// zero size would end the body.
pub open spec fn chunks_text(cs: Seq<Seq<u8>>) -> Seq<u8>
    decreases cs.len(),
{
    if cs.len() == 0 {
        Seq::empty()
    } else if cs.last().len() == 0 {
        chunks_text(cs.drop_last())
    } else {
        chunks_text(cs.drop_last()) + chunk_text(cs.last())
    }
}

/// The body on the wire.
pub open spec fn body_text(b: BodyModel) -> Seq<u8> {
    match b {
        BodyModel::Empty => Seq::empty(),
        BodyModel::Fixed(x) => x,
        BodyModel::Chunks(cs) => chunks_text(cs) + last_chunk(),
    }
}

/// `HTTP/1.1 <code> <reason>\r\n`
pub open spec fn status_line(r: ResponseModel) -> Seq<u8> {
    version_prefix() + numeral_text(r.status as nat, 10) + seq![32u8] + r.reason + crlf()
}

/// The bytes of a response whose `Date` header reads `date`.
pub open spec fn encode_response(r: ResponseModel, date: Seq<u8>) -> Seq<u8> {
    status_line(r) + header_block(response_headers(r, date)) + crlf() + body_text(r.body)
}

fn literal(which: u8) -> (r: Vec<u8>)
    requires
        which < 8,
    ensures
        which == 0 ==> r@ == crlf(),
        which == 1 ==> r@ == version_prefix(),
        which == 2 ==> r@ == date_name(),
        which == 3 ==> r@ == date_title(),
        which == 4 ==> r@ == content_length_title(),
        which == 5 ==> r@ == transfer_encoding_title(),
        which == 6 ==> r@ == last_chunk(),
        which == 7 ==> r@ == seq![58u8, 32],
{
    let r: Vec<u8> = if which == 0 {
        vec![13u8, 10]
    } else if which == 1 {
        vec![72u8, 84, 84, 80, 47, 49, 46, 49, 32]
    } else if which == 2 {
        vec![100u8, 97, 116, 101]
    } else if which == 3 {
        vec![68u8, 97, 116, 101]
    } else if which == 4 {
        vec![67u8, 111, 110, 116, 101, 110, 116, 45, 76, 101, 110, 103, 116, 104]
    } else if which == 5 {
        vec![84u8, 114, 97, 110, 115, 102, 101, 114, 45, 69, 110, 99, 111, 100, 105, 110, 103]
    } else if which == 6 {
        vec![48u8, 13, 10, 13, 10]
    } else {
        vec![58u8, 32]
    };
    assert(which == 0 ==> r@ =~= crlf());
    assert(which == 1 ==> r@ =~= version_prefix());
    assert(which == 2 ==> r@ =~= date_name());
    assert(which == 3 ==> r@ =~= date_title());
    assert(which == 4 ==> r@ =~= content_length_title());
    assert(which == 5 ==> r@ =~= transfer_encoding_title());
    assert(which == 6 ==> r@ =~= last_chunk());
    assert(which == 7 ==> r@ =~= seq![58u8, 32]);
    r
}

/// Appends `name: value\r\n`.
fn push_header_line(dst: &mut Vec<u8>, name: &[u8], value: &[u8])
    ensures
        final(dst)@ == old(dst)@ + header_line((name@, value@)),
{
    append_bytes(dst, name);
    append_bytes(dst, literal(7).as_slice());
    append_bytes(dst, value);
    append_bytes(dst, literal(0).as_slice());
    assert(final(dst)@ =~= old(dst)@ + header_line((name@, value@)));
}

/// Appends one chunk of a chunked body; an empty chunk adds nothing.
pub fn encode_chunk(dst: &mut Vec<u8>, chunk: &[u8])
    ensures
        final(dst)@ == old(dst)@ + if chunk@.len() == 0 {
            Seq::empty()
        } else {
            chunk_text(chunk@)
        },
{
    if chunk.len() == 0 {
        assert(dst@ =~= old(dst)@ + Seq::<u8>::empty());
        return;
    }
    push_numeral(dst, chunk.len(), 16);
    append_bytes(dst, literal(0).as_slice());
    append_bytes(dst, chunk);
    append_bytes(dst, literal(0).as_slice());
    assert(final(dst)@ =~= old(dst)@ + chunk_text(chunk@));
}

/// Appends the zero-size chunk that ends a chunked body.
pub fn encode_last_chunk(dst: &mut Vec<u8>)
    ensures
        final(dst)@ == old(dst)@ + last_chunk(),
{
    append_bytes(dst, literal(6).as_slice());
}

/// Whether the serializer writes a header of this name itself.
fn managed(name: &[u8]) -> (r: bool)
    ensures
        r == is_managed_header(name@),
{
    let d = literal(2);
    let cl = literal_content_length();
    let te = literal_transfer_encoding();
    eq_ignore_ascii_case(name, d.as_slice()) || eq_ignore_ascii_case(name, cl.as_slice())
        || eq_ignore_ascii_case(name, te.as_slice())
}

fn literal_content_length() -> (r: Vec<u8>)
    ensures
        r@ == content_length_name(),
{
    let r: Vec<u8> = vec![99u8, 111, 110, 116, 101, 110, 116, 45, 108, 101, 110, 103, 116, 104];
    assert(r@ =~= content_length_name());
    r
}

fn literal_transfer_encoding() -> (r: Vec<u8>)
    ensures
        r@ == transfer_encoding_name(),
{
    let r: Vec<u8> = vec![116u8, 114, 97, 110, 115, 102, 101, 114, 45, 101, 110, 99, 111, 100, 105, 110, 103];
    assert(r@ =~= transfer_encoding_name());
    r
}

/// The bytes of `resp`, with `date` as the value of its `Date` header.
pub fn serialize(resp: &Response, date: &[u8]) -> (r: Vec<u8>)
    ensures
        r@ == encode_response(resp@, date@),
{
    let mut out: Vec<u8> = Vec::new();
    let ghost rm = resp@;
    append_bytes(&mut out, literal(1).as_slice());
    push_numeral(&mut out, resp.status as usize, 10);
    out.push(32u8);
    append_bytes(&mut out, resp.reason.as_slice());
    append_bytes(&mut out, literal(0).as_slice());
    assert(out@ =~= status_line(rm));
    let ghost hv = rm.headers;
    let mut i: usize = 0;
    while i < resp.headers.len()
        invariant
            rm == resp@,
            hv == rm.headers,
            hv == headers_view(resp.headers@),
            i <= resp.headers@.len(),
            out@ == status_line(rm) + header_block(kept_headers(hv.subrange(0, i as int))),
        decreases resp.headers@.len() - i,
    {
        let h = &resp.headers[i];
        let ghost before = out@;
        assert(hv.subrange(0, i + 1).drop_last() =~= hv.subrange(0, i as int));
        assert(hv.subrange(0, i + 1).last() == h@);
        if !managed(h.name.as_slice()) {
            push_header_line(&mut out, h.name.as_slice(), h.value.as_slice());
            let ghost k = kept_headers(hv.subrange(0, i as int));
            assert(k.push(h@).drop_last() =~= k);
            assert(out@ =~= status_line(rm) + header_block(k.push(h@)));
        }
        i = i + 1;
    }
    assert(hv.subrange(0, hv.len() as int) =~= hv);
    let ghost kept = kept_headers(hv);
    push_header_line(&mut out, literal(3).as_slice(), date);
    let mut framing_value: Vec<u8> = Vec::new();
    let framing_name = match &resp.body {
        Body::Empty => {
            push_numeral(&mut framing_value, 0, 10);
            literal(4)
        },
        Body::Fixed(b) => {
            push_numeral(&mut framing_value, b.len(), 10);
            literal(4)
        },
        Body::Chunks(_) => {
            framing_value = literal_chunked();
            literal(5)
        },
    };
    assert(framing_value@ =~= framing_header(rm.body).1);
    assert(framing_name@ == framing_header(rm.body).0);
    push_header_line(&mut out, framing_name.as_slice(), framing_value.as_slice());
    append_bytes(&mut out, literal(0).as_slice());
    let ghost hs = response_headers(rm, date@);
    let ghost with_date = kept.push((date_title(), date@));
    assert(hs.drop_last() =~= with_date);
    assert(with_date.drop_last() =~= kept);
    assert(header_block(with_date) == header_block(kept) + header_line((date_title(), date@)));
    assert(header_block(hs) == header_block(with_date) + header_line(framing_header(rm.body)));
    assert(out@ =~= status_line(rm) + header_block(hs) + crlf());
    match &resp.body {
        Body::Empty => {},
        Body::Fixed(b) => {
            append_bytes(&mut out, b.as_slice());
        },
        Body::Chunks(cs) => {
            let ghost cv = cs@.map_values(|c: Vec<u8>| c@);
            let ghost head = out@;
            let mut j: usize = 0;
            while j < cs.len()
                invariant
                    cv == cs@.map_values(|c: Vec<u8>| c@),
                    j <= cs@.len(),
                    out@ == head + chunks_text(cv.subrange(0, j as int)),
                decreases cs@.len() - j,
            {
                assert(cv.subrange(0, j + 1).drop_last() =~= cv.subrange(0, j as int));
                assert(cv.subrange(0, j + 1).last() == cs@[j as int]@);
                encode_chunk(&mut out, cs[j].as_slice());
                assert(out@ =~= head + chunks_text(cv.subrange(0, j + 1)));
                j = j + 1;
            }
            assert(cv.subrange(0, cv.len() as int) =~= cv);
            encode_last_chunk(&mut out);
        },
    }
    assert(out@ =~= encode_response(rm, date@));
    out
}

fn literal_chunked() -> (r: Vec<u8>)
    ensures
        r@ == chunked_name(),
{
    let r: Vec<u8> = vec![99u8, 104, 117, 110, 107, 101, 100];
    assert(r@ =~= chunked_name());
    r
}

/// What the driver is handed for a finished request: the response, tagged
/// with whether its body streams after the head.
pub enum Message {
    WithoutBody(Response),
    WithBody(Response),
}

/// Tags a handler's response: a chunked body streams, any other does not.
pub fn tag_response(resp: Response) -> (r: Message)
    ensures
        resp.body is Chunks ==> r == Message::WithBody(resp),
        !(resp.body is Chunks) ==> r == Message::WithoutBody(resp),
{
    match resp.body {
        Body::Chunks(_) => Message::WithBody(resp),
        _ => Message::WithoutBody(resp),
    }
}

proof fn lemma_titles()
    ensures
        eq_ignore_case(content_length_title(), content_length_name()),
        eq_ignore_case(transfer_encoding_title(), transfer_encoding_name()),
        !eq_ignore_case(date_title(), content_length_name()),
        !eq_ignore_case(date_title(), transfer_encoding_name()),
        !eq_ignore_case(content_length_title(), transfer_encoding_name()),
        !eq_ignore_case(transfer_encoding_title(), content_length_name()),
{
    let a = content_length_title();
    let b = content_length_name();
    assert forall|i: int| 0 <= i < a.len() implies lower(#[trigger] a[i]) == lower(b[i]) by {
        assert(0 <= i < 14);
        assert(i == 0 || i == 1 || i == 2 || i == 3 || i == 4 || i == 5 || i == 6 || i == 7 || i == 8
            || i == 9 || i == 10 || i == 11 || i == 12 || i == 13);
    }
    let c = transfer_encoding_title();
    let d = transfer_encoding_name();
    assert forall|i: int| 0 <= i < c.len() implies lower(#[trigger] c[i]) == lower(d[i]) by {
        assert(0 <= i < 17);
        assert(i == 0 || i == 1 || i == 2 || i == 3 || i == 4 || i == 5 || i == 6 || i == 7 || i == 8
            || i == 9 || i == 10 || i == 11 || i == 12 || i == 13 || i == 14 || i == 15 || i == 16);
    }
}

proof fn lemma_kept_not_framing(hs: Seq<(Seq<u8>, Seq<u8>)>)
    ensures
        count_named(kept_headers(hs), content_length_name()) == 0,
        count_named(kept_headers(hs), transfer_encoding_name()) == 0,
    decreases hs.len(),
{
    if hs.len() > 0 {
        lemma_kept_not_framing(hs.drop_last());
        if !is_managed_header(hs.last().0) {
            let k = kept_headers(hs.drop_last());
            assert(k.push(hs.last()).drop_last() =~= k);
        }
    }
}

/// A response is framed one way only: a fixed (or empty) body by exactly one
/// `Content-Length` equal to its length and no `Transfer-Encoding`; a chunked
/// body by exactly one `Transfer-Encoding: chunked`, no `Content-Length`, and
/// its bytes end with the zero-size chunk.
pub proof fn lemma_framing_choice(r: ResponseModel, date: Seq<u8>)
    ensures
        ({
            let hs = response_headers(r, date);
            let bytes = encode_response(r, date);
            &&& r.body is Fixed ==> {
                &&& count_named(hs, content_length_name()) == 1
                &&& count_named(hs, transfer_encoding_name()) == 0
                &&& last_value(hs, content_length_name()) == numeral_text(r.body->Fixed_0.len(), 10)
                &&& bytes.subrange(bytes.len() - r.body->Fixed_0.len(), bytes.len() as int)
                    == r.body->Fixed_0
            }
            &&& r.body is Empty ==> {
                &&& count_named(hs, content_length_name()) == 1
                &&& count_named(hs, transfer_encoding_name()) == 0
                &&& last_value(hs, content_length_name()) == numeral_text(0, 10)
            }
            &&& r.body is Chunks ==> {
                &&& count_named(hs, transfer_encoding_name()) == 1
                &&& count_named(hs, content_length_name()) == 0
                &&& bytes.subrange(bytes.len() - 5, bytes.len() as int) == last_chunk()
            }
        }),
{
    lemma_titles();
    let k = kept_headers(r.headers);
    lemma_kept_not_framing(r.headers);
    let with_date = k.push((date_title(), date));
    let hs = response_headers(r, date);
    assert(hs.drop_last() =~= with_date);
    assert(with_date.drop_last() =~= k);
    assert(hs.last() == framing_header(r.body));
    assert(with_date.last() == (date_title(), date));
    assert(count_named(with_date, content_length_name()) == count_named(k, content_length_name()));
    assert(count_named(with_date, transfer_encoding_name()) == count_named(k, transfer_encoding_name()));
    assert(count_named(hs, content_length_name()) == count_named(with_date, content_length_name())
        + if eq_ignore_case(framing_header(r.body).0, content_length_name()) { 1nat } else { 0nat });
    assert(count_named(hs, transfer_encoding_name()) == count_named(with_date, transfer_encoding_name())
        + if eq_ignore_case(framing_header(r.body).0, transfer_encoding_name()) { 1nat } else { 0nat });
    let bytes = encode_response(r, date);
    let front = status_line(r) + header_block(hs) + crlf();
    match r.body {
        BodyModel::Fixed(x) => {
            assert(bytes.subrange(front.len() as int, bytes.len() as int) =~= x);
        },
        BodyModel::Chunks(cs) => {
            assert(bytes.subrange(bytes.len() - 5, bytes.len() as int) =~= last_chunk());
        },
        BodyModel::Empty => {},
    }
}

} // verus!
