//! Incremental HTTP/1.x request parser.
//!
//! The parser is a function of the bytes accumulated so far: it either finds a
//! complete request at the front of the buffer, reports that more input is
//! needed, or reports a framing error.

use vstd::prelude::*;
use crate::number::{is_numeral, numeral_of, parse_numeral, lemma_numeral_nonneg};
use crate::bytes::{crlf_at, find_crlf, find_byte, lemma_find_crlf_bounds, find_crlf_from, find_byte_from, copy_range, append_range};

verus! {

/// A header field as it appeared on the wire: name and trimmed value.
pub struct Header {
    pub name: Vec<u8>,
    pub value: Vec<u8>,
}

impl View for Header {
    type V = (Seq<u8>, Seq<u8>);

    open spec fn view(&self) -> (Seq<u8>, Seq<u8>) {
        (self.name@, self.value@)
    }
}

/// A `tchar` of the HTTP grammar: the bytes a method or header name is made of.
pub open spec fn is_tchar(b: u8) -> bool {
    (48 <= b <= 57) || (65 <= b <= 90) || (97 <= b <= 122) || b == 33 || b == 35 || b == 36
        || b == 37 || b == 38 || b == 39 || b == 42 || b == 43 || b == 45 || b == 46 || b == 94
        || b == 95 || b == 96 || b == 124 || b == 126
}

/// A non-empty run of `tchar`s.
pub open spec fn is_token(s: Seq<u8>) -> bool {
    s.len() > 0 && forall|i: int| 0 <= i < s.len() ==> is_tchar(#[trigger] s[i])
}

/// A non-empty run of visible ASCII bytes (no space, no control byte).
pub open spec fn is_visible(s: Seq<u8>) -> bool {
    s.len() > 0 && forall|i: int| 0 <= i < s.len() ==> 33 <= #[trigger] s[i] <= 126
}

/// Splits a request line `method SP target SP version` into its three fields.
pub open spec fn split_request_line(line: Seq<u8>) -> Option<(Seq<u8>, Seq<u8>, Seq<u8>)> {
    match find_byte(line, 32u8, 0) {
        None => None,
        Some(i) => match find_byte(line, 32u8, i + 1) {
            None => None,
            Some(k) => {
                let m = line.subrange(0, i);
                let t = line.subrange(i + 1, k);
                let v = line.subrange(k + 1, line.len() as int);
                if is_token(m) && is_visible(t) && is_visible(v) {
                    Some((m, t, v))
                } else {
                    None
                }
            },
        },
    }
}

/// Optional whitespace: space or horizontal tab.
pub open spec fn is_ows(b: u8) -> bool {
    b == 32 || b == 9
}

/// The first index at or after `i` that does not hold whitespace.
pub open spec fn skip_ows(s: Seq<u8>, i: int) -> int
    decreases s.len() - i,
{
    if 0 <= i < s.len() && is_ows(s[i]) {
        skip_ows(s, i + 1)
    } else {
        i
    }
}

/// The end of `s[lo..j]` once trailing whitespace is removed.
pub open spec fn back_ows(s: Seq<u8>, lo: int, j: int) -> int
    decreases j - lo,
{
    if lo < j && 0 < j <= s.len() && is_ows(s[j - 1]) {
        back_ows(s, lo, j - 1)
    } else {
        j
    }
}

/// `s[i..]` with leading and trailing whitespace removed.
pub open spec fn trimmed_from(s: Seq<u8>, i: int) -> Seq<u8> {
    let a = skip_ows(s, i);
    s.subrange(a, back_ows(s, a, s.len() as int))
}

/// Splits a header line on its first colon; the value is trimmed.
pub open spec fn split_header(line: Seq<u8>) -> Option<(Seq<u8>, Seq<u8>)> {
    match find_byte(line, 58u8, 0) {
        None => None,
        Some(c) => if is_token(line.subrange(0, c)) {
            Some((line.subrange(0, c), trimmed_from(line, c + 1)))
        } else {
            None
        },
    }
}

proof fn lemma_skip_ows_bounds(s: Seq<u8>, i: int)
    requires
        0 <= i <= s.len(),
    ensures
        i <= skip_ows(s, i) <= s.len(),
    decreases s.len() - i,
{
    if 0 <= i < s.len() && is_ows(s[i]) {
        lemma_skip_ows_bounds(s, i + 1);
    }
}

proof fn lemma_back_ows_bounds(s: Seq<u8>, lo: int, j: int)
    requires
        0 <= lo <= j <= s.len(),
    ensures
        lo <= back_ows(s, lo, j) <= j,
    decreases j - lo,
{
    if lo < j && 0 < j <= s.len() && is_ows(s[j - 1]) {
        lemma_back_ows_bounds(s, lo, j - 1);
    }
}

/// Whether `s[a..b]` is a token.
fn check_token(s: &[u8], a: usize, b: usize) -> (r: bool)
    requires
        a <= b <= s@.len(),
    ensures
        r == is_token(s@.subrange(a as int, b as int)),
{
    if a == b {
        return false;
    }
    let mut i: usize = a;
    while i < b
        invariant
            a <= i <= b <= s@.len(),
            forall|k: int| a <= k < i ==> is_tchar(#[trigger] s@[k]),
        decreases b - i,
    {
        let c = s[i];
        if !((48u8 <= c && c <= 57u8) || (65u8 <= c && c <= 90u8) || (97u8 <= c && c <= 122u8)
            || c == 33u8 || c == 35u8 || c == 36u8 || c == 37u8 || c == 38u8 || c == 39u8
            || c == 42u8 || c == 43u8 || c == 45u8 || c == 46u8 || c == 94u8 || c == 95u8
            || c == 96u8 || c == 124u8 || c == 126u8) {
            assert(!is_tchar(s@.subrange(a as int, b as int)[i - a]));
            return false;
        }
        i = i + 1;
    }
    assert forall|k: int| 0 <= k < b - a implies is_tchar(
        #[trigger] s@.subrange(a as int, b as int)[k],
    ) by {
        assert(s@.subrange(a as int, b as int)[k] == s@[a + k]);
    }
    true
}

/// Whether `s[a..b]` is non-empty visible ASCII.
fn check_visible(s: &[u8], a: usize, b: usize) -> (r: bool)
    requires
        a <= b <= s@.len(),
    ensures
        r == is_visible(s@.subrange(a as int, b as int)),
{
    if a == b {
        return false;
    }
    let mut i: usize = a;
    while i < b
        invariant
            a <= i <= b <= s@.len(),
            forall|k: int| a <= k < i ==> 33 <= #[trigger] s@[k] <= 126,
        decreases b - i,
    {
        if s[i] < 33u8 || s[i] > 126u8 {
            assert(s@.subrange(a as int, b as int)[i - a] == s@[i as int]);
            return false;
        }
        i = i + 1;
    }
    assert forall|k: int| 0 <= k < b - a implies 33 <= #[trigger] s@.subrange(
        a as int,
        b as int,
    )[k] <= 126 by {
        assert(s@.subrange(a as int, b as int)[k] == s@[a + k]);
    }
    true
}

/// The three fields of a request line, or `None` where it is malformed.
pub fn parse_request_line(line: &[u8]) -> (r: Option<(Vec<u8>, Vec<u8>, Vec<u8>)>)
    ensures
        match r {
            Some((m, t, v)) => split_request_line(line@) == Some((m@, t@, v@)),
            None => split_request_line(line@) is None,
        },
{
    let n = line.len();
    let i = match find_byte_from(line, 32u8, 0) {
        None => return None,
        Some(i) => i,
    };
    let k = match find_byte_from(line, 32u8, i + 1) {
        None => return None,
        Some(k) => k,
    };
    if check_token(line, 0, i) && check_visible(line, i + 1, k) && check_visible(
        line,
        k + 1,
        line.len(),
    ) {
        Some((copy_range(line, 0, i), copy_range(line, i + 1, k), copy_range(line, k + 1, line.len())))
    } else {
        None
    }
}

/// The name and trimmed value of a header line, or `None` where it is malformed.
pub fn parse_header_line(line: &[u8]) -> (r: Option<Header>)
    ensures
        match r {
            Some(h) => split_header(line@) == Some(h@),
            None => split_header(line@) is None,
        },
{
    let n = line.len();
    let c = match find_byte_from(line, 58u8, 0) {
        None => return None,
        Some(c) => c,
    };
    if !check_token(line, 0, c) {
        return None;
    }
    let mut a: usize = c + 1;
    while a < line.len() && (line[a] == 32u8 || line[a] == 9u8)
        invariant
            c + 1 <= a <= line@.len(),
            skip_ows(line@, (c + 1) as int) == skip_ows(line@, a as int),
        decreases line@.len() - a,
    {
        a = a + 1;
    }
    let mut b: usize = line.len();
    while b > a && (line[b - 1] == 32u8 || line[b - 1] == 9u8)
        invariant
            a <= b <= line@.len(),
            back_ows(line@, a as int, line@.len() as int) == back_ows(line@, a as int, b as int),
        decreases b - a,
    {
        b = b - 1;
    }
    Some(Header { name: copy_range(line, 0, c), value: copy_range(line, a, b) })
}


/// Bounds on the head of a request (request line and header lines).
#[derive(Clone, Copy)]
pub struct Limits {
    /// Largest number of bytes the head may take, its final empty line included.
    pub max_head_bytes: usize,
    /// Largest number of header lines.
    pub max_headers: usize,
}

/// Why the bytes of a connection cannot be read as a request.
#[derive(Clone, Copy, Debug, PartialEq, Eq, Structural)]
pub enum ParseError {
    MalformedRequestLine,
    MalformedHeader,
    HeadersTooLarge,
    AmbiguousBodyLength,
    MalformedChunk,
}

/// How the body of a request is delimited.
#[derive(Clone, Copy, Debug, PartialEq, Eq, Structural)]
pub enum BodyKind {
    Absent,
    Fixed(usize),
    Chunked,
}

/// Outcome of scanning the header lines of a head.
pub ghost enum HeadScan {
    Incomplete,
    Failed(ParseError),
    /// The headers, and the position just past the empty line.
    Done(Seq<(Seq<u8>, Seq<u8>)>, int),
}

/// Reads header lines from `pos` on, after those already in `acc`, until the
/// empty line that ends the head.
pub open spec fn scan_headers(
    s: Seq<u8>,
    pos: int,
    acc: Seq<(Seq<u8>, Seq<u8>)>,
    lim: Limits,
) -> HeadScan
    decreases s.len() - pos,
    via scan_headers_decreases
{
    match find_crlf(s, pos) {
        None => if s.len() > lim.max_head_bytes {
            HeadScan::Failed(ParseError::HeadersTooLarge)
        } else {
            HeadScan::Incomplete
        },
        Some(j) => if j + 2 > lim.max_head_bytes {
            HeadScan::Failed(ParseError::HeadersTooLarge)
        } else if j == pos {
            HeadScan::Done(acc, j + 2)
        } else if acc.len() >= lim.max_headers {
            HeadScan::Failed(ParseError::HeadersTooLarge)
        } else {
            match split_header(s.subrange(pos, j)) {
                None => HeadScan::Failed(ParseError::MalformedHeader),
                Some(h) => scan_headers(s, j + 2, acc.push(h), lim),
            }
        },
    }
}

#[via_fn]
proof fn scan_headers_decreases(
    s: Seq<u8>,
    pos: int,
    acc: Seq<(Seq<u8>, Seq<u8>)>,
    lim: Limits,
) {
    lemma_find_crlf_bounds(s, pos);
}

/// ASCII lower case of a byte.
pub open spec fn lower(b: u8) -> u8 {
    if 65 <= b <= 90 {
        (b + 32) as u8
    } else {
        b
    }
}

/// Equality of byte strings up to ASCII case.
pub open spec fn eq_ignore_case(a: Seq<u8>, b: Seq<u8>) -> bool {
    a.len() == b.len() && forall|i: int| 0 <= i < a.len() ==> lower(#[trigger] a[i]) == lower(b[i])
}

/// `content-length`
pub open spec fn content_length_name() -> Seq<u8> {
    seq![99u8, 111, 110, 116, 101, 110, 116, 45, 108, 101, 110, 103, 116, 104]
}

/// `transfer-encoding`
pub open spec fn transfer_encoding_name() -> Seq<u8> {
    seq![116u8, 114, 97, 110, 115, 102, 101, 114, 45, 101, 110, 99, 111, 100, 105, 110, 103]
}

/// `chunked`
pub open spec fn chunked_name() -> Seq<u8> {
    seq![99u8, 104, 117, 110, 107, 101, 100]
}

/// How many headers are named `name`, up to case.
pub open spec fn count_named(hs: Seq<(Seq<u8>, Seq<u8>)>, name: Seq<u8>) -> nat
    decreases hs.len(),
{
    if hs.len() == 0 {
        0
    } else {
        count_named(hs.drop_last(), name) + if eq_ignore_case(hs.last().0, name) {
            1nat
        } else {
            0nat
        }
    }
}

/// How many headers are named `name` and have the value `value`, up to case.
pub open spec fn count_named_value(
    hs: Seq<(Seq<u8>, Seq<u8>)>,
    name: Seq<u8>,
    value: Seq<u8>,
) -> nat
    decreases hs.len(),
{
    if hs.len() == 0 {
        0
    } else {
        count_named_value(hs.drop_last(), name, value) + if eq_ignore_case(hs.last().0, name)
            && eq_ignore_case(hs.last().1, value) {
            1nat
        } else {
            0nat
        }
    }
}

/// The value of the last header named `name`, up to case; empty if there is none.
pub open spec fn last_value(hs: Seq<(Seq<u8>, Seq<u8>)>, name: Seq<u8>) -> Seq<u8>
    decreases hs.len(),
{
    if hs.len() == 0 {
        Seq::empty()
    } else if eq_ignore_case(hs.last().0, name) {
        hs.last().1
    } else {
        last_value(hs.drop_last(), name)
    }
}

/// The body framing that a header list asks for.
///
/// `Transfer-Encoding: chunked` wins; else a `Content-Length` that is a
/// decimal numeral fitting a `usize` gives a fixed length; else there is no
/// body. Two `Content-Length` headers, or one beside chunked coding, are
/// ambiguous.
pub open spec fn body_kind_of(hs: Seq<(Seq<u8>, Seq<u8>)>) -> Result<BodyKind, ParseError> {
    let cl = count_named(hs, content_length_name());
    let chunked = count_named_value(hs, transfer_encoding_name(), chunked_name()) > 0;
    if cl > 1 || (chunked && cl > 0) {
        Err(ParseError::AmbiguousBodyLength)
    } else if chunked {
        Ok(BodyKind::Chunked)
    } else if cl == 1 {
        match numeral_of(last_value(hs, content_length_name()), 10) {
            Some(n) => Ok(BodyKind::Fixed(n as usize)),
            None => Ok(BodyKind::Absent),
        }
    } else {
        Ok(BodyKind::Absent)
    }
}

/// Outcome of reading a body.
pub ghost enum BodyScan {
    Incomplete,
    Failed(ParseError),
    /// The body, and the position just past it.
    Done(Seq<u8>, int),
}

/// Skips trailer lines from `pos` on until the empty line.
pub open spec fn scan_trailers(s: Seq<u8>, pos: int, body: Seq<u8>) -> BodyScan
    decreases s.len() - pos,
    via scan_trailers_decreases
{
    match find_crlf(s, pos) {
        None => BodyScan::Incomplete,
        Some(k) => if k == pos {
            BodyScan::Done(body, k + 2)
        } else {
            scan_trailers(s, k + 2, body)
        },
    }
}

#[via_fn]
proof fn scan_trailers_decreases(s: Seq<u8>, pos: int, body: Seq<u8>) {
    lemma_find_crlf_bounds(s, pos);
}

/// Reads chunks from `pos` on, after the data already in `body`.
pub open spec fn scan_chunks(s: Seq<u8>, pos: int, body: Seq<u8>) -> BodyScan
    decreases s.len() - pos,
    via scan_chunks_decreases
{
    match find_crlf(s, pos) {
        None => BodyScan::Incomplete,
        Some(j) => match numeral_of(s.subrange(pos, j), 16) {
            None => BodyScan::Failed(ParseError::MalformedChunk),
            Some(n) => if n == 0 {
                scan_trailers(s, j + 2, body)
            } else if j + 2 + n + 2 > s.len() {
                BodyScan::Incomplete
            } else if !crlf_at(s, j + 2 + n) {
                BodyScan::Failed(ParseError::MalformedChunk)
            } else {
                scan_chunks(s, j + 4 + n, body + s.subrange(j + 2, j + 2 + n))
            },
        },
    }
}

#[via_fn]
proof fn scan_chunks_decreases(s: Seq<u8>, pos: int, body: Seq<u8>) {
    lemma_find_crlf_bounds(s, pos);
    if let Some(j) = find_crlf(s, pos) {
        if is_numeral(s.subrange(pos, j), 16) {
            lemma_numeral_nonneg(s.subrange(pos, j), 16);
        }
    }
}


/// A parsed request. `body` holds the body bytes, chunk framing removed.
pub struct Request {
    pub method: Vec<u8>,
    pub target: Vec<u8>,
    pub version: Vec<u8>,
    pub headers: Vec<Header>,
    pub body_kind: BodyKind,
    pub body: Vec<u8>,
}

/// The value a [`Request`] stands for.
pub ghost struct RequestModel {
    pub method: Seq<u8>,
    pub target: Seq<u8>,
    pub version: Seq<u8>,
    pub headers: Seq<(Seq<u8>, Seq<u8>)>,
    pub body_kind: BodyKind,
    pub body: Seq<u8>,
}

/// The views of a list of headers.
pub open spec fn headers_view(hs: Seq<Header>) -> Seq<(Seq<u8>, Seq<u8>)> {
    hs.map_values(|h: Header| h@)
}

impl View for Request {
    type V = RequestModel;

    open spec fn view(&self) -> RequestModel {
        RequestModel {
            method: self.method@,
            target: self.target@,
            version: self.version@,
            headers: headers_view(self.headers@),
            body_kind: self.body_kind,
            body: self.body@,
        }
    }
}

/// What the parser makes of a buffer.
pub ghost enum ParseModel {
    Incomplete,
    Failed(ParseError),
    /// A request, and the number of bytes it took from the front of the buffer.
    Done(RequestModel, int),
}

/// The body that follows a head ending at `end`, delimited as `kind` says.
pub open spec fn body_of(s: Seq<u8>, end: int, kind: BodyKind) -> BodyScan {
    match kind {
        BodyKind::Absent => BodyScan::Done(Seq::empty(), end),
        BodyKind::Fixed(n) => if end + n <= s.len() {
            BodyScan::Done(s.subrange(end, end + n), end + n)
        } else {
            BodyScan::Incomplete
        },
        BodyKind::Chunked => scan_chunks(s, end, Seq::empty()),
    }
}

/// The request at the front of `s`, if it is all there.
pub open spec fn parse_request(s: Seq<u8>, lim: Limits) -> ParseModel {
    match find_crlf(s, 0) {
        None => if s.len() > lim.max_head_bytes {
            ParseModel::Failed(ParseError::HeadersTooLarge)
        } else {
            ParseModel::Incomplete
        },
        Some(j) => if j + 2 > lim.max_head_bytes {
            ParseModel::Failed(ParseError::HeadersTooLarge)
        } else {
            match split_request_line(s.subrange(0, j)) {
                None => ParseModel::Failed(ParseError::MalformedRequestLine),
                Some((m, t, v)) => match scan_headers(s, j + 2, Seq::empty(), lim) {
                    HeadScan::Incomplete => ParseModel::Incomplete,
                    HeadScan::Failed(e) => ParseModel::Failed(e),
                    HeadScan::Done(hs, end) => match body_kind_of(hs) {
                        Err(e) => ParseModel::Failed(e),
                        Ok(kind) => match body_of(s, end, kind) {
                            BodyScan::Incomplete => ParseModel::Incomplete,
                            BodyScan::Failed(e) => ParseModel::Failed(e),
                            BodyScan::Done(b, stop) => ParseModel::Done(
                                RequestModel {
                                    method: m,
                                    target: t,
                                    version: v,
                                    headers: hs,
                                    body_kind: kind,
                                    body: b,
                                },
                                stop,
                            ),
                        },
                    },
                },
            }
        },
    }
}

/// What [`parse`] returns.
pub enum Parsed {
    /// The buffer holds the start of a request and nothing wrong so far.
    Incomplete,
    Failed(ParseError),
    /// A request, and the number of bytes it took from the front of the buffer.
    Done(Request, usize),
}

impl View for Parsed {
    type V = ParseModel;

    open spec fn view(&self) -> ParseModel {
        match self {
            Parsed::Incomplete => ParseModel::Incomplete,
            Parsed::Failed(e) => ParseModel::Failed(*e),
            Parsed::Done(r, n) => ParseModel::Done(r@, *n as int),
        }
    }
}

fn lower_byte(c: u8) -> (r: u8)
    ensures
        r == lower(c),
{
    if 65u8 <= c && c <= 90u8 {
        c + 32
    } else {
        c
    }
}

/// Whether `a` and `b` are equal up to ASCII case.
pub fn eq_ignore_ascii_case(a: &[u8], b: &[u8]) -> (r: bool)
    ensures
        r == eq_ignore_case(a@, b@),
{
    if a.len() != b.len() {
        return false;
    }
    let mut i: usize = 0;
    while i < a.len()
        invariant
            a@.len() == b@.len(),
            i <= a@.len(),
            forall|k: int| 0 <= k < i ==> lower(#[trigger] a@[k]) == lower(b@[k]),
        decreases a@.len() - i,
    {
        if lower_byte(a[i]) != lower_byte(b[i]) {
            return false;
        }
        i = i + 1;
    }
    true
}

fn content_length_bytes() -> (r: Vec<u8>)
    ensures
        r@ == content_length_name(),
{
    let r: Vec<u8> = vec![99u8, 111, 110, 116, 101, 110, 116, 45, 108, 101, 110, 103, 116, 104];
    assert(r@ =~= content_length_name());
    r
}

fn transfer_encoding_bytes() -> (r: Vec<u8>)
    ensures
        r@ == transfer_encoding_name(),
{
    let r: Vec<u8> = vec![116u8, 114, 97, 110, 115, 102, 101, 114, 45, 101, 110, 99, 111, 100, 105, 110, 103];
    assert(r@ =~= transfer_encoding_name());
    r
}

fn chunked_bytes() -> (r: Vec<u8>)
    ensures
        r@ == chunked_name(),
{
    let r: Vec<u8> = vec![99u8, 104, 117, 110, 107, 101, 100];
    assert(r@ =~= chunked_name());
    r
}

/// The body framing that `hs` asks for (see [`body_kind_of`]).
pub fn body_kind(hs: &Vec<Header>) -> (r: Result<BodyKind, ParseError>)
    ensures
        r == body_kind_of(headers_view(hs@)),
{
    let cl_name = content_length_bytes();
    let te_name = transfer_encoding_bytes();
    let chunked = chunked_bytes();
    let ghost hv = headers_view(hs@);
    let mut cl: usize = 0;
    let mut te: usize = 0;
    let mut last: usize = 0;
    let mut i: usize = 0;
    while i < hs.len()
        invariant
            hv == headers_view(hs@),
            cl_name@ == content_length_name(),
            te_name@ == transfer_encoding_name(),
            chunked@ == chunked_name(),
            i <= hs@.len(),
            cl <= i,
            te <= i,
            cl == count_named(hv.subrange(0, i as int), content_length_name()),
            te == count_named_value(hv.subrange(0, i as int), transfer_encoding_name(), chunked_name()),
            cl > 0 ==> last < i && last_value(hv.subrange(0, i as int), content_length_name()) == hs@[last as int].value@,
            cl == 0 ==> last_value(hv.subrange(0, i as int), content_length_name()) == Seq::<u8>::empty(),
        decreases hs@.len() - i,
    {
        let h = &hs[i];
        assert(hv.subrange(0, i + 1).drop_last() =~= hv.subrange(0, i as int));
        assert(hv.subrange(0, i + 1).last() == h@);
        if eq_ignore_ascii_case(h.name.as_slice(), cl_name.as_slice()) {
            cl = cl + 1;
            last = i;
        }
        if eq_ignore_ascii_case(h.name.as_slice(), te_name.as_slice())
            && eq_ignore_ascii_case(h.value.as_slice(), chunked.as_slice()) {
            te = te + 1;
        }
        i = i + 1;
    }
    assert(hv.subrange(0, hs@.len() as int) =~= hv);
    if cl > 1 || (te > 0 && cl > 0) {
        Err(ParseError::AmbiguousBodyLength)
    } else if te > 0 {
        Ok(BodyKind::Chunked)
    } else if cl == 1 {
        match parse_numeral(hs[last].value.as_slice(), 10) {
            Some(n) => Ok(BodyKind::Fixed(n)),
            None => Ok(BodyKind::Absent),
        }
    } else {
        Ok(BodyKind::Absent)
    }
}

/// Reads header lines of `s` from `start` on (see [`scan_headers`]).
fn read_headers(s: &[u8], start: usize, lim: Limits) -> (r: Result<Option<(Vec<Header>, usize)>, ParseError>)
    requires
        start <= s@.len(),
    ensures
        match r {
            Ok(None) => scan_headers(s@, start as int, Seq::empty(), lim) is Incomplete,
            Err(e) => scan_headers(s@, start as int, Seq::empty(), lim) == HeadScan::Failed(e),
            Ok(Some((hs, end))) => scan_headers(s@, start as int, Seq::empty(), lim)
                == HeadScan::Done(headers_view(hs@), end as int) && end <= s@.len(),
        },
{
    let len = s.len();
    let mut hs: Vec<Header> = Vec::new();
    let mut pos: usize = start;
    assert(headers_view(hs@) =~= Seq::empty());
    loop
        invariant
            len == s@.len(),
            pos <= s@.len(),
            scan_headers(s@, start as int, Seq::empty(), lim) == scan_headers(
                s@,
                pos as int,
                headers_view(hs@),
                lim,
            ),
        decreases s@.len() - pos,
    {
        let j = match find_crlf_from(s, pos) {
            None => {
                if s.len() > lim.max_head_bytes {
                    return Err(ParseError::HeadersTooLarge);
                }
                return Ok(None);
            },
            Some(j) => j,
        };
        if j + 2 > lim.max_head_bytes {
            return Err(ParseError::HeadersTooLarge);
        }
        if j == pos {
            return Ok(Some((hs, j + 2)));
        }
        if hs.len() >= lim.max_headers {
            return Err(ParseError::HeadersTooLarge);
        }
        let line = copy_range(s, pos, j);
        match parse_header_line(line.as_slice()) {
            None => {
                return Err(ParseError::MalformedHeader);
            },
            Some(h) => {
                let ghost before = headers_view(hs@);
                hs.push(h);
                assert(headers_view(hs@) =~= before.push(h@));
                pos = j + 2;
            },
        }
    }
}

/// Skips trailer lines of `s` from `start` on (see [`scan_trailers`]).
fn read_trailers(s: &[u8], start: usize, body: Vec<u8>) -> (r: Result<Option<(Vec<u8>, usize)>, ParseError>)
    requires
        start <= s@.len(),
    ensures
        match r {
            Ok(None) => scan_trailers(s@, start as int, body@) is Incomplete,
            Err(e) => scan_trailers(s@, start as int, body@) == BodyScan::Failed(e),
            Ok(Some((b, end))) => scan_trailers(s@, start as int, body@) == BodyScan::Done(b@, end as int),
        },
{
    let len = s.len();
    let mut pos: usize = start;
    loop
        invariant
            len == s@.len(),
            pos <= s@.len(),
            scan_trailers(s@, start as int, body@) == scan_trailers(s@, pos as int, body@),
        decreases s@.len() - pos,
    {
        let k = match find_crlf_from(s, pos) {
            None => return Ok(None),
            Some(k) => k,
        };
        if k == pos {
            return Ok(Some((body, k + 2)));
        }
        pos = k + 2;
    }
}

/// Reads chunks of `s` from `start` on (see [`scan_chunks`]).
fn read_chunks(s: &[u8], start: usize) -> (r: Result<Option<(Vec<u8>, usize)>, ParseError>)
    requires
        start <= s@.len(),
    ensures
        match r {
            Ok(None) => scan_chunks(s@, start as int, Seq::empty()) is Incomplete,
            Err(e) => scan_chunks(s@, start as int, Seq::empty()) == BodyScan::Failed(e),
            Ok(Some((b, end))) => scan_chunks(s@, start as int, Seq::empty()) == BodyScan::Done(b@, end as int),
        },
{
    let len = s.len();
    let mut body: Vec<u8> = Vec::new();
    let mut pos: usize = start;
    assert(body@ =~= Seq::empty());
    loop
        invariant
            len == s@.len(),
            pos <= s@.len(),
            scan_chunks(s@, start as int, Seq::empty()) == scan_chunks(s@, pos as int, body@),
        decreases s@.len() - pos,
    {
        let j = match find_crlf_from(s, pos) {
            None => return Ok(None),
            Some(j) => j,
        };
        let size_line = copy_range(s, pos, j);
        let n = match parse_numeral(size_line.as_slice(), 16) {
            None => return Err(ParseError::MalformedChunk),
            Some(n) => n,
        };
        if n == 0 {
            return read_trailers(s, j + 2, body);
        }
        let avail = s.len() - (j + 2);
        if n > avail || avail - n < 2 {
            return Ok(None);
        }
        if !(s[j + 2 + n] == 13u8 && s[j + 3 + n] == 10u8) {
            return Err(ParseError::MalformedChunk);
        }
        append_range(&mut body, s, j + 2, j + 2 + n);
        pos = j + 4 + n;
    }
}

/// Parses the request at the front of `buf`.
///
/// `Incomplete` means that `buf` is the start of a request that may still
/// turn out well; a read that ends in the middle of a request never yields an
/// error by itself. After `Done(req, n)` the next request starts at `buf[n]`.
pub fn parse(buf: &[u8], lim: Limits) -> (r: Parsed)
    ensures
        r@ == parse_request(buf@, lim),
{
    let len = buf.len();
    let j = match find_crlf_from(buf, 0) {
        None => {
            if buf.len() > lim.max_head_bytes {
                return Parsed::Failed(ParseError::HeadersTooLarge);
            }
            return Parsed::Incomplete;
        },
        Some(j) => j,
    };
    if j + 2 > lim.max_head_bytes {
        return Parsed::Failed(ParseError::HeadersTooLarge);
    }
    let line = copy_range(buf, 0, j);
    let (method, target, version) = match parse_request_line(line.as_slice()) {
        None => return Parsed::Failed(ParseError::MalformedRequestLine),
        Some(fields) => fields,
    };
    let (headers, end) = match read_headers(buf, j + 2, lim) {
        Err(e) => return Parsed::Failed(e),
        Ok(None) => return Parsed::Incomplete,
        Ok(Some(found)) => found,
    };
    let kind = match body_kind(&headers) {
        Err(e) => return Parsed::Failed(e),
        Ok(kind) => kind,
    };
    let (body, stop) = match kind {
        BodyKind::Absent => (Vec::new(), end),
        BodyKind::Fixed(n) => {
            if n > buf.len() - end {
                return Parsed::Incomplete;
            }
            (copy_range(buf, end, end + n), end + n)
        },
        BodyKind::Chunked => match read_chunks(buf, end) {
            Err(e) => return Parsed::Failed(e),
            Ok(None) => return Parsed::Incomplete,
            Ok(Some(found)) => found,
        },
    };
    proof {
        if kind is Absent {
            assert(body@ =~= Seq::<u8>::empty());
        }
    }
    Parsed::Done(Request { method, target, version, headers, body_kind: kind, body }, stop)
}

proof fn lemma_scan_headers_bounded(
    s: Seq<u8>,
    pos: int,
    acc: Seq<(Seq<u8>, Seq<u8>)>,
    lim: Limits,
)
    ensures
        s.len() > lim.max_head_bytes ==> !(scan_headers(s, pos, acc, lim) is Incomplete),
        scan_headers(s, pos, acc, lim) matches HeadScan::Done(_, end) ==> end <= lim.max_head_bytes,
    decreases s.len() - pos,
{
    lemma_find_crlf_bounds(s, pos);
    if let Some(j) = find_crlf(s, pos) {
        if j + 2 <= lim.max_head_bytes && j != pos && acc.len() < lim.max_headers {
            if let Some(h) = split_header(s.subrange(pos, j)) {
                lemma_scan_headers_bounded(s, j + 2, acc.push(h), lim);
            }
        }
    }
}

/// A head larger than the bound is never waited for: once more bytes than
/// `max_head_bytes` are buffered, the parser either fails (with
/// `HeadersTooLarge` or another framing error) or has read a whole head that
/// fits the bound and waits, if at all, only for the body.
pub proof fn lemma_head_bound(s: Seq<u8>, lim: Limits)
    requires
        s.len() > lim.max_head_bytes,
    ensures
        find_crlf(s, 0) is None ==> parse_request(s, lim) == ParseModel::Failed(
            ParseError::HeadersTooLarge,
        ),
        parse_request(s, lim) is Incomplete ==> {
            &&& find_crlf(s, 0) matches Some(j)
            &&& scan_headers(s, j + 2, Seq::empty(), lim) matches HeadScan::Done(_, end)
            &&& end <= lim.max_head_bytes
        },
{
    if let Some(j) = find_crlf(s, 0) {
        lemma_scan_headers_bounded(s, j + 2, Seq::empty(), lim);
    }
}

proof fn lemma_scan_headers_end(s: Seq<u8>, pos: int, acc: Seq<(Seq<u8>, Seq<u8>)>, lim: Limits)
    requires
        0 <= pos,
    ensures
        scan_headers(s, pos, acc, lim) matches HeadScan::Done(_, end) ==> pos < end <= s.len(),
    decreases s.len() - pos,
{
    lemma_find_crlf_bounds(s, pos);
    if let Some(j) = find_crlf(s, pos) {
        if j + 2 <= lim.max_head_bytes && j != pos && acc.len() < lim.max_headers {
            if let Some(h) = split_header(s.subrange(pos, j)) {
                lemma_scan_headers_end(s, j + 2, acc.push(h), lim);
            }
        }
    }
}

proof fn lemma_scan_trailers_end(s: Seq<u8>, pos: int, body: Seq<u8>)
    requires
        0 <= pos,
    ensures
        scan_trailers(s, pos, body) matches BodyScan::Done(_, end) ==> pos < end <= s.len(),
    decreases s.len() - pos,
{
    lemma_find_crlf_bounds(s, pos);
    if let Some(k) = find_crlf(s, pos) {
        if k != pos {
            lemma_scan_trailers_end(s, k + 2, body);
        }
    }
}

proof fn lemma_scan_chunks_end(s: Seq<u8>, pos: int, body: Seq<u8>)
    requires
        0 <= pos,
    ensures
        scan_chunks(s, pos, body) matches BodyScan::Done(_, end) ==> pos < end <= s.len(),
    decreases s.len() - pos,
{
    lemma_find_crlf_bounds(s, pos);
    if let Some(j) = find_crlf(s, pos) {
        if is_numeral(s.subrange(pos, j), 16) {
            lemma_numeral_nonneg(s.subrange(pos, j), 16);
        }
        if let Some(n) = numeral_of(s.subrange(pos, j), 16) {
            if n == 0 {
                lemma_scan_trailers_end(s, j + 2, body);
            } else if j + 2 + n + 2 <= s.len() && crlf_at(s, j + 2 + n) {
                lemma_scan_chunks_end(s, j + 4 + n, body + s.subrange(j + 2, j + 2 + n));
            }
        }
    }
}

/// A request that is read takes at least one byte and no more than the
/// buffer holds.
pub proof fn lemma_parse_consumes(s: Seq<u8>, lim: Limits)
    ensures
        parse_request(s, lim) matches ParseModel::Done(_, n) ==> 0 < n <= s.len(),
{
    lemma_find_crlf_bounds(s, 0);
    if let Some(j) = find_crlf(s, 0) {
        lemma_scan_headers_end(s, j + 2, Seq::empty(), lim);
        if let HeadScan::Done(hs, end) = scan_headers(s, j + 2, Seq::empty(), lim) {
            lemma_scan_chunks_end(s, end, Seq::empty());
        }
    }
}

} // verus!
