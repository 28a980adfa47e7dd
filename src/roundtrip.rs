//! How a request is written on the wire, and the proof that the parser reads
//! a well-formed request back exactly, leaving the bytes after it in place.

use vstd::prelude::*;
use crate::bytes::{crlf_at, find_crlf, find_byte};
use crate::number::{numeral_of, numeral_text, lemma_numeral_text_value};
use crate::request::{BodyKind, BodyScan, HeadScan, Limits, ParseModel, RequestModel, body_kind_of,
    is_ows, is_tchar, is_token, is_visible, parse_request, scan_chunks, scan_headers,
    scan_trailers, skip_ows, back_ows, split_header, split_request_line};
use crate::response::{chunk_text, chunks_text, crlf, header_block, header_line, last_chunk};

verus! {

/// `method SP target SP version`
pub open spec fn request_line(r: RequestModel) -> Seq<u8> {
    r.method + seq![32u8] + r.target + seq![32u8] + r.version
}

/// The request line, the header lines and the empty line.
pub open spec fn request_head_text(r: RequestModel) -> Seq<u8> {
    request_line(r) + crlf() + header_block(r.headers) + crlf()
}

/// The body as its framing writes it: raw for a fixed length, as one chunk
/// and the last chunk for chunked coding.
pub open spec fn request_body_text(r: RequestModel) -> Seq<u8> {
    match r.body_kind {
        BodyKind::Absent => Seq::empty(),
        BodyKind::Fixed(_) => r.body,
        BodyKind::Chunked => chunks_text(seq![r.body]) + last_chunk(),
    }
}

/// A request on the wire.
pub open spec fn request_text(r: RequestModel) -> Seq<u8> {
    request_head_text(r) + request_body_text(r)
}

/// No carriage return and no line feed.
pub open spec fn no_line_break(s: Seq<u8>) -> bool {
    forall|i: int| 0 <= i < s.len() ==> #[trigger] s[i] != 13u8 && s[i] != 10u8
}

/// No whitespace at either end.
pub open spec fn is_trimmed(s: Seq<u8>) -> bool {
    s.len() == 0 || (!is_ows(s[0]) && !is_ows(s[s.len() - 1]))
}

/// A header the parser can read back as it is.
pub open spec fn header_ok(h: (Seq<u8>, Seq<u8>)) -> bool {
    is_token(h.0) && no_line_break(h.1) && is_trimmed(h.1)
}

/// A request that can be written and read back within the bounds `lim`: its
/// fields are made of the bytes the grammar allows, its headers ask for the
/// framing it has, and its body fits that framing.
pub open spec fn well_formed(r: RequestModel, lim: Limits) -> bool {
    &&& is_token(r.method)
    &&& is_visible(r.target)
    &&& is_visible(r.version)
    &&& forall|i: int| 0 <= i < r.headers.len() ==> header_ok(#[trigger] r.headers[i])
    &&& r.headers.len() <= lim.max_headers
    &&& request_head_text(r).len() <= lim.max_head_bytes
    &&& body_kind_of(r.headers) == Ok::<BodyKind, crate::request::ParseError>(r.body_kind)
    &&& match r.body_kind {
        BodyKind::Absent => r.body.len() == 0,
        BodyKind::Fixed(n) => r.body.len() == n,
        BodyKind::Chunked => r.body.len() <= usize::MAX,
    }
}

proof fn lemma_find_crlf_at(s: Seq<u8>, pos: int, j: int)
    requires
        0 <= pos <= j,
        crlf_at(s, j),
        forall|k: int| pos <= k < j ==> s[k] != 13u8,
    ensures
        find_crlf(s, pos) == Some(j),
    decreases j - pos,
{
    if pos < j {
        lemma_find_crlf_at(s, pos + 1, j);
    }
}

proof fn lemma_find_byte_at(s: Seq<u8>, b: u8, pos: int, j: int)
    requires
        0 <= pos <= j < s.len(),
        s[j] == b,
        forall|k: int| pos <= k < j ==> s[k] != b,
    ensures
        find_byte(s, b, pos) == Some(j),
    decreases j - pos,
{
    if pos < j {
        lemma_find_byte_at(s, b, pos + 1, j);
    }
}

proof fn lemma_request_line(r: RequestModel)
    requires
        is_token(r.method),
        is_visible(r.target),
        is_visible(r.version),
    ensures
        split_request_line(request_line(r)) == Some((r.method, r.target, r.version)),
{
    let line = request_line(r);
    let m = r.method.len() as int;
    let t = r.target.len() as int;
    assert forall|k: int| 0 <= k < m implies line[k] != 32u8 by {
        assert(line[k] == r.method[k]);
        assert(is_tchar(r.method[k]));
    }
    lemma_find_byte_at(line, 32u8, 0, m);
    assert forall|k: int| m + 1 <= k < m + 1 + t implies line[k] != 32u8 by {
        assert(line[k] == r.target[k - m - 1]);
    }
    lemma_find_byte_at(line, 32u8, m + 1, m + 1 + t);
    assert(line.subrange(0, m) =~= r.method);
    assert(line.subrange(m + 1, m + 1 + t) =~= r.target);
    assert(line.subrange(m + 2 + t, line.len() as int) =~= r.version);
}

proof fn lemma_header_line(h: (Seq<u8>, Seq<u8>))
    requires
        header_ok(h),
    ensures
        split_header(h.0 + seq![58u8, 32] + h.1) == Some(h),
{
    let line = h.0 + seq![58u8, 32] + h.1;
    let n = h.0.len() as int;
    assert forall|k: int| 0 <= k < n implies line[k] != 58u8 by {
        assert(line[k] == h.0[k]);
        assert(is_tchar(h.0[k]));
    }
    lemma_find_byte_at(line, 58u8, 0, n);
    assert(line.subrange(0, n) =~= h.0);
    assert(line[n + 1] == 32u8);
    if h.1.len() > 0 {
        assert(line[n + 2] == h.1[0]);
    }
    assert(skip_ows(line, n + 2) == n + 2);
    assert(skip_ows(line, n + 1) == n + 2);
    if h.1.len() > 0 {
        assert(line[line.len() - 1] == h.1[h.1.len() - 1]);
    }
    assert(back_ows(line, n + 2, line.len() as int) == line.len());
    assert(line.subrange(n + 2, line.len() as int) =~= h.1);
}

proof fn lemma_block_front(hs: Seq<(Seq<u8>, Seq<u8>)>)
    requires
        hs.len() > 0,
    ensures
        header_block(hs) == header_line(hs[0]) + header_block(hs.drop_first()),
    decreases hs.len(),
{
    if hs.len() == 1 {
        assert(hs.drop_last() =~= Seq::<(Seq<u8>, Seq<u8>)>::empty());
        assert(hs.drop_first() =~= Seq::<(Seq<u8>, Seq<u8>)>::empty());
        assert(header_block(hs) =~= header_line(hs[0]) + header_block(hs.drop_first()));
    } else {
        lemma_block_front(hs.drop_last());
        assert(hs.drop_last().drop_first() =~= hs.drop_first().drop_last());
        assert(hs.drop_last()[0] == hs[0]);
        assert(hs.drop_first().last() == hs.last());
        assert(header_block(hs) =~= header_line(hs[0]) + header_block(hs.drop_first()));
    }
}

proof fn lemma_scan_block(
    s: Seq<u8>,
    pos: int,
    acc: Seq<(Seq<u8>, Seq<u8>)>,
    hs: Seq<(Seq<u8>, Seq<u8>)>,
    lim: Limits,
)
    requires
        0 <= pos,
        pos + header_block(hs).len() + 2 <= s.len(),
        s.subrange(pos, pos + header_block(hs).len() + 2) == header_block(hs) + crlf(),
        forall|i: int| 0 <= i < hs.len() ==> header_ok(#[trigger] hs[i]),
        acc.len() + hs.len() <= lim.max_headers,
        pos + header_block(hs).len() + 2 <= lim.max_head_bytes,
    ensures
        scan_headers(s, pos, acc, lim) == HeadScan::Done(acc + hs, pos + header_block(hs).len() + 2),
    decreases hs.len(),
{
    let w = header_block(hs) + crlf();
    assert forall|k: int| 0 <= k < w.len() implies s[pos + k] == #[trigger] w[k] by {
        assert(s.subrange(pos, pos + w.len())[k] == s[pos + k]);
    }
    if hs.len() == 0 {
        assert(w[0] == 13u8 && w[1] == 10u8);
        lemma_find_crlf_at(s, pos, pos);
        assert(acc + hs =~= acc);
    } else {
        let h = hs[0];
        let rest = hs.drop_first();
        lemma_block_front(hs);
        let line = h.0 + seq![58u8, 32] + h.1;
        let j = pos + line.len() as int;
        assert(header_line(h) == line + crlf());
        assert(w =~= line + (crlf() + (header_block(rest) + crlf())));
        assert(header_ok(h));
        assert forall|k: int| pos <= k < j implies s[k] != 13u8 by {
            assert(s[k] == w[k - pos]);
            assert(w[k - pos] == line[k - pos]);
            if k - pos < h.0.len() {
                assert(line[k - pos] == h.0[k - pos]);
                assert(is_tchar(h.0[k - pos]));
            } else if k - pos >= h.0.len() + 2 {
                assert(line[k - pos] == h.1[k - pos - h.0.len() - 2]);
            }
        }
        assert(s[j] == w[line.len() as int]);
        assert(s[j + 1] == w[line.len() as int + 1]);
        lemma_find_crlf_at(s, pos, j);
        assert(s.subrange(pos, j) =~= line) by {
            assert forall|k: int| 0 <= k < line.len() implies s.subrange(pos, j)[k] == line[k] by {
                assert(s[pos + k] == w[k]);
            }
        }
        lemma_header_line(h);
        assert forall|i: int| 0 <= i < rest.len() implies header_ok(#[trigger] rest[i]) by {
            assert(rest[i] == hs[i + 1]);
        }
        let w2 = header_block(rest) + crlf();
        assert(s.subrange(j + 2, j + 2 + w2.len()) =~= w2) by {
            assert forall|k: int| 0 <= k < w2.len() implies s.subrange(j + 2, j + 2 + w2.len())[k]
                == w2[k] by {
                assert(s[j + 2 + k] == w[line.len() as int + 2 + k]);
            }
        }
        lemma_scan_block(s, j + 2, acc.push(h), rest, lim);
        assert(acc.push(h) + rest =~= acc + hs);
    }
}

proof fn lemma_scan_one_chunk(s: Seq<u8>, pos: int, body: Seq<u8>)
    requires
        0 <= pos,
        body.len() <= usize::MAX,
        pos + (chunks_text(seq![body]) + last_chunk()).len() <= s.len(),
        s.subrange(pos, pos + (chunks_text(seq![body]) + last_chunk()).len()) == chunks_text(
            seq![body],
        ) + last_chunk(),
    ensures
        scan_chunks(s, pos, Seq::empty()) == BodyScan::Done(
            body,
            pos + (chunks_text(seq![body]) + last_chunk()).len(),
        ),
{
    let w = chunks_text(seq![body]) + last_chunk();
    assert forall|k: int| 0 <= k < w.len() implies s[pos + k] == #[trigger] w[k] by {
        assert(s.subrange(pos, pos + w.len())[k] == s[pos + k]);
    }
    let one = seq![body];
    assert(one.drop_last() =~= Seq::<Seq<u8>>::empty());
    assert(one.last() == body);
    assert(chunks_text(one.drop_last()) == Seq::<u8>::empty());
    let zero = numeral_text(0, 16);
    assert(zero =~= seq![48u8]);
    lemma_numeral_text_value(0, 16);
    // The last chunk: `0\r\n\r\n` starting at `q`.
    let q = pos + chunks_text(one).len() as int;
    assert(s[q] == 48u8 && s[q + 1] == 13u8 && s[q + 2] == 10u8 && s[q + 3] == 13u8 && s[q + 4] == 10u8)
        by {
        assert(s[q] == w[q - pos]);
        assert(s[q + 1] == w[q + 1 - pos]);
        assert(s[q + 2] == w[q + 2 - pos]);
        assert(s[q + 3] == w[q + 3 - pos]);
        assert(s[q + 4] == w[q + 4 - pos]);
    }
    lemma_find_crlf_at(s, q, q + 1);
    assert(s.subrange(q, q + 1) =~= zero);
    assert(numeral_of(s.subrange(q, q + 1), 16) == Some(0int));
    lemma_find_crlf_at(s, q + 3, q + 3);
    assert(scan_trailers(s, q + 3, body) == BodyScan::Done(body, q + 5));
    assert(scan_chunks(s, q, body) == BodyScan::Done(body, q + 5));
    assert(w.len() == chunks_text(one).len() + 5);
    if body.len() == 0 {
        assert(chunks_text(one) =~= Seq::<u8>::empty());
        assert(body =~= Seq::<u8>::empty());
    } else {
        assert(chunks_text(one) == chunk_text(body));
        let hex = numeral_text(body.len(), 16);
        lemma_numeral_text_value(body.len(), 16);
        let j = pos + hex.len() as int;
        assert(chunk_text(body) =~= hex + crlf() + body + crlf());
        assert forall|k: int| pos <= k < j implies s[k] != 13u8 by {
            assert(s[k] == w[k - pos]);
            assert(w[k - pos] == hex[k - pos]);
            assert(crate::number::digit_val(hex[k - pos]) < 16);
        }
        assert(s[j] == w[hex.len() as int]);
        assert(s[j + 1] == w[hex.len() as int + 1]);
        lemma_find_crlf_at(s, pos, j);
        assert(s.subrange(pos, j) =~= hex) by {
            assert forall|k: int| 0 <= k < hex.len() implies s.subrange(pos, j)[k] == hex[k] by {
                assert(s[pos + k] == w[k]);
            }
        }
        let n = body.len() as int;
        assert(numeral_of(s.subrange(pos, j), 16) == Some(n));
        assert(s[j + 2 + n] == w[hex.len() as int + 2 + n]);
        assert(s[j + 3 + n] == w[hex.len() as int + 3 + n]);
        assert(crlf_at(s, j + 2 + n));
        assert(s.subrange(j + 2, j + 2 + n) =~= body) by {
            assert forall|k: int| 0 <= k < n implies s.subrange(j + 2, j + 2 + n)[k] == body[k] by {
                assert(s[j + 2 + k] == w[hex.len() as int + 2 + k]);
            }
        }
        assert(j + 4 + n == q);
        assert(Seq::<u8>::empty() + body =~= body);
        assert(scan_chunks(s, pos, Seq::empty()) == scan_chunks(s, q, body));
    }
}

/// A well-formed request written on the wire and followed by any bytes is
/// read back as the same request, taking exactly its own bytes.
pub proof fn lemma_round_trip(r: RequestModel, rest: Seq<u8>, lim: Limits)
    requires
        well_formed(r, lim),
    ensures
        parse_request(request_text(r) + rest, lim) == ParseModel::Done(r, request_text(r).len() as int),
{
    let s = request_text(r) + rest;
    let line = request_line(r);
    let block = header_block(r.headers);
    let body = request_body_text(r);
    let j = line.len() as int;
    assert(s =~= line + (crlf() + (block + crlf()) + (body + rest)));
    // Request line.
    lemma_request_line(r);
    assert forall|k: int| 0 <= k < j implies s[k] != 13u8 by {
        assert(s[k] == line[k]);
        if k < r.method.len() {
            assert(line[k] == r.method[k]);
            assert(is_tchar(r.method[k]));
        } else if r.method.len() < k < r.method.len() + 1 + r.target.len() {
            assert(line[k] == r.target[k - r.method.len() - 1]);
        } else if k > r.method.len() + 1 + r.target.len() {
            assert(line[k] == r.version[k - r.method.len() - 2 - r.target.len()]);
        }
    }
    assert(s[j] == 13u8 && s[j + 1] == 10u8);
    lemma_find_crlf_at(s, 0, j);
    assert(s.subrange(0, j) =~= line);
    // Header lines.
    let hpos = j + 2;
    let end = hpos + block.len() + 2;
    assert(s.subrange(hpos, end) =~= block + crlf());
    lemma_scan_block(s, hpos, Seq::empty(), r.headers, lim);
    assert(Seq::<(Seq<u8>, Seq<u8>)>::empty() + r.headers =~= r.headers);
    assert(end == request_head_text(r).len());
    // Body.
    match r.body_kind {
        BodyKind::Absent => {
            assert(r.body =~= Seq::<u8>::empty());
        },
        BodyKind::Fixed(n) => {
            assert(s.subrange(end, end + n) =~= r.body);
        },
        BodyKind::Chunked => {
            assert(s.subrange(end, end + body.len()) =~= body);
            lemma_scan_one_chunk(s, end, r.body);
        },
    }
}

proof fn lemma_find_crlf_none(s: Seq<u8>, pos: int)
    requires
        0 <= pos,
        forall|k: int| pos <= k && k + 1 < s.len() ==> s[k] != 13u8,
    ensures
        find_crlf(s, pos) is None,
    decreases s.len() - pos,
{
    if pos + 1 < s.len() {
        lemma_find_crlf_none(s, pos + 1);
    }
}

proof fn lemma_scan_block_prefix(
    a: Seq<u8>,
    pos: int,
    acc: Seq<(Seq<u8>, Seq<u8>)>,
    hs: Seq<(Seq<u8>, Seq<u8>)>,
    lim: Limits,
)
    requires
        0 <= pos <= a.len() < pos + header_block(hs).len() + 2,
        forall|k: int| 0 <= k < a.len() - pos ==> a[pos + k] == #[trigger] (header_block(hs) + crlf())[k],
        forall|i: int| 0 <= i < hs.len() ==> header_ok(#[trigger] hs[i]),
        acc.len() + hs.len() <= lim.max_headers,
        pos + header_block(hs).len() + 2 <= lim.max_head_bytes,
    ensures
        scan_headers(a, pos, acc, lim) is Incomplete,
    decreases hs.len(),
{
    let w = header_block(hs) + crlf();
    if hs.len() == 0 {
        lemma_find_crlf_none(a, pos);
    } else {
        let h = hs[0];
        let rest = hs.drop_first();
        lemma_block_front(hs);
        let line = h.0 + seq![58u8, 32] + h.1;
        let j = pos + line.len() as int;
        assert(w =~= line + (crlf() + (header_block(rest) + crlf())));
        assert(header_ok(h));
        assert forall|k: int| pos <= k < j && k < a.len() implies a[k] != 13u8 by {
            assert(a[k] == w[k - pos]);
            assert(w[k - pos] == line[k - pos]);
            if k - pos < h.0.len() {
                assert(line[k - pos] == h.0[k - pos]);
                assert(is_tchar(h.0[k - pos]));
            } else if k - pos >= h.0.len() + 2 {
                assert(line[k - pos] == h.1[k - pos - h.0.len() - 2]);
            }
        }
        if a.len() <= j + 1 {
            lemma_find_crlf_none(a, pos);
        } else {
            assert(a[j] == w[line.len() as int]);
            assert(a[j + 1] == w[line.len() as int + 1]);
            lemma_find_crlf_at(a, pos, j);
            assert(a.subrange(pos, j) =~= line) by {
                assert forall|k: int| 0 <= k < line.len() implies a.subrange(pos, j)[k] == line[k] by {
                    assert(a[pos + k] == w[k]);
                }
            }
            lemma_header_line(h);
            assert forall|i: int| 0 <= i < rest.len() implies header_ok(#[trigger] rest[i]) by {
                assert(rest[i] == hs[i + 1]);
            }
            let w2 = header_block(rest) + crlf();
            assert forall|k: int| 0 <= k < a.len() - (j + 2) implies a[j + 2 + k] == #[trigger] w2[k] by {
                assert(a[j + 2 + k] == w[line.len() as int + 2 + k]);
            }
            lemma_scan_block_prefix(a, j + 2, acc.push(h), rest, lim);
        }
    }
}

proof fn lemma_chunk_prefix(a: Seq<u8>, pos: int, body: Seq<u8>)
    requires
        0 <= pos <= a.len() < pos + (chunks_text(seq![body]) + last_chunk()).len(),
        body.len() <= usize::MAX,
        forall|k: int| 0 <= k < a.len() - pos ==> a[pos + k] == #[trigger] (chunks_text(seq![body])
            + last_chunk())[k],
    ensures
        scan_chunks(a, pos, Seq::empty()) is Incomplete,
{
    let w = chunks_text(seq![body]) + last_chunk();
    let one = seq![body];
    assert(one.drop_last() =~= Seq::<Seq<u8>>::empty());
    assert(one.last() == body);
    assert(chunks_text(one.drop_last()) == Seq::<u8>::empty());
    let zero = numeral_text(0, 16);
    assert(zero =~= seq![48u8]);
    lemma_numeral_text_value(0, 16);
    let q = pos + chunks_text(one).len() as int;
    // Inside the last chunk `0\r\n\r\n`, which starts at `q`.
    assert(q <= a.len() ==> scan_chunks(a, q, body) is Incomplete) by {
        if q <= a.len() {
            if a.len() <= q + 2 {
                assert forall|k: int| q <= k && k + 1 < a.len() implies a[k] != 13u8 by {
                    assert(a[k] == w[k - pos]);
                }
                lemma_find_crlf_none(a, q);
            } else {
                assert(a[q] == w[q - pos]);
                assert(a[q + 1] == w[q + 1 - pos]);
                assert(a[q + 2] == w[q + 2 - pos]);
                lemma_find_crlf_at(a, q, q + 1);
                assert(a.subrange(q, q + 1) =~= zero);
                assert(numeral_of(a.subrange(q, q + 1), 16) == Some(0int));
                if a.len() > q + 3 {
                    assert(a[q + 3] == w[q + 3 - pos]);
                }
                lemma_find_crlf_none(a, q + 3);
            }
        }
    }
    if body.len() == 0 {
        assert(chunks_text(one) =~= Seq::<u8>::empty());
        assert(body =~= Seq::<u8>::empty());
    } else {
        assert(chunks_text(one) == chunk_text(body));
        let hex = numeral_text(body.len(), 16);
        lemma_numeral_text_value(body.len(), 16);
        let j = pos + hex.len() as int;
        let n = body.len() as int;
        assert(chunk_text(body) =~= hex + crlf() + body + crlf());
        assert forall|k: int| pos <= k < j && k < a.len() implies a[k] != 13u8 by {
            assert(a[k] == w[k - pos]);
            assert(w[k - pos] == hex[k - pos]);
            assert(crate::number::digit_val(hex[k - pos]) < 16);
        }
        if a.len() <= j + 1 {
            lemma_find_crlf_none(a, pos);
        } else {
            assert(a[j] == w[hex.len() as int]);
            assert(a[j + 1] == w[hex.len() as int + 1]);
            lemma_find_crlf_at(a, pos, j);
            assert(a.subrange(pos, j) =~= hex) by {
                assert forall|k: int| 0 <= k < hex.len() implies a.subrange(pos, j)[k] == hex[k] by {
                    assert(a[pos + k] == w[k]);
                }
            }
            assert(numeral_of(a.subrange(pos, j), 16) == Some(n));
            if j + 2 + n + 2 <= a.len() {
                assert(a[j + 2 + n] == w[hex.len() as int + 2 + n]);
                assert(a[j + 3 + n] == w[hex.len() as int + 3 + n]);
                assert(a.subrange(j + 2, j + 2 + n) =~= body) by {
                    assert forall|k: int| 0 <= k < n implies a.subrange(j + 2, j + 2 + n)[k] == body[k] by {
                        assert(a[j + 2 + k] == w[hex.len() as int + 2 + k]);
                    }
                }
                assert(j + 4 + n == q);
                assert(Seq::<u8>::empty() + body =~= body);
                assert(scan_chunks(a, pos, Seq::empty()) == scan_chunks(a, q, body));
            }
        }
    }
}

/// Every proper prefix of a well-formed request on the wire is reported as
/// incomplete: a request cut anywhere by the reads that deliver it is never
/// taken for a malformed one, nor read early.
pub proof fn lemma_prefix_incomplete(r: RequestModel, p: int, lim: Limits)
    requires
        well_formed(r, lim),
        0 <= p < request_text(r).len(),
    ensures
        parse_request(request_text(r).take(p), lim) is Incomplete,
{
    let t = request_text(r);
    let a = t.take(p);
    let line = request_line(r);
    let block = header_block(r.headers);
    let body = request_body_text(r);
    let j = line.len() as int;
    assert(t =~= line + (crlf() + (block + crlf()) + body));
    assert forall|k: int| 0 <= k < a.len() implies a[k] == #[trigger] t[k] by {}
    assert forall|k: int| 0 <= k < j && k < a.len() implies a[k] != 13u8 by {
        assert(t[k] == line[k]);
        if k < r.method.len() {
            assert(line[k] == r.method[k]);
            assert(is_tchar(r.method[k]));
        } else if r.method.len() < k < r.method.len() + 1 + r.target.len() {
            assert(line[k] == r.target[k - r.method.len() - 1]);
        } else if k > r.method.len() + 1 + r.target.len() {
            assert(line[k] == r.version[k - r.method.len() - 2 - r.target.len()]);
        }
    }
    let hpos = j + 2;
    let end = hpos + block.len() + 2;
    assert(end == request_head_text(r).len());
    if p <= j + 1 {
        lemma_find_crlf_none(a, 0);
        return;
    }
    lemma_request_line(r);
    assert(a[j] == 13u8 && a[j + 1] == 10u8);
    lemma_find_crlf_at(a, 0, j);
    assert(a.subrange(0, j) =~= line);
    assert(Seq::<(Seq<u8>, Seq<u8>)>::empty() + r.headers =~= r.headers);
    if p < end {
        assert forall|k: int| 0 <= k < a.len() - hpos implies a[hpos + k] == #[trigger] (block
            + crlf())[k] by {
            assert(t[hpos + k] == (block + crlf())[k]);
        }
        lemma_scan_block_prefix(a, hpos, Seq::empty(), r.headers, lim);
        return;
    }
    assert(a.subrange(hpos, end) =~= block + crlf()) by {
        assert forall|k: int| 0 <= k < block.len() + 2 implies a.subrange(hpos, end)[k] == (block
            + crlf())[k] by {
            assert(t[hpos + k] == (block + crlf())[k]);
        }
    }
    lemma_scan_block(a, hpos, Seq::empty(), r.headers, lim);
    match r.body_kind {
        BodyKind::Absent => {},
        BodyKind::Fixed(n) => {},
        BodyKind::Chunked => {
            assert forall|k: int| 0 <= k < a.len() - end implies a[end + k] == #[trigger] body[k] by {
                assert(t[end + k] == body[k]);
            }
            lemma_chunk_prefix(a, end, r.body);
        },
    }
}

} // verus!
