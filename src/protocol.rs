//! Request and response messages exchanged between client and server, in
//! the same self-delimiting encoding as log records.
use vstd::prelude::*;
use vstd::utf8::*;
use crate::codec::{DecodeError, parse_text, text_bytes, lemma_text_round_trip, push_text, read_text};

verus! {

/// Tag byte of a `Put` request.
pub const REQ_PUT: u8 = 1;

/// Tag byte of a `Remove` request.
pub const REQ_REMOVE: u8 = 2;

/// Tag byte of a `Get` request.
pub const REQ_GET: u8 = 3;

/// Tag byte of a `Done` response.
pub const RESP_DONE: u8 = 16;

/// Tag byte of a `Get` response without a value.
pub const RESP_NONE: u8 = 17;

/// Tag byte of a `Get` response with a value.
pub const RESP_SOME: u8 = 18;

/// Tag byte of an `Error` response.
pub const RESP_ERROR: u8 = 19;

/// What a client asks of the server.
#[derive(Debug, Clone, PartialEq, Eq)]
pub enum Request {
    Put(String, String),
    Get(String),
    Remove(String),
}

/// What the server answers.
#[derive(Debug, Clone, PartialEq, Eq)]
pub enum Response {
    Get(Option<String>),
    Done,
    Error(String),
}

/// A request over character sequences.
pub ghost enum RequestView {
    Put(Seq<char>, Seq<char>),
    Get(Seq<char>),
    Remove(Seq<char>),
}

/// A response over character sequences.
pub ghost enum ResponseView {
    Get(Option<Seq<char>>),
    Done,
    Error(Seq<char>),
}

impl View for Request {
    type V = RequestView;

    open spec fn view(&self) -> RequestView {
        match self {
            Request::Put(k, v) => RequestView::Put(k@, v@),
            Request::Get(k) => RequestView::Get(k@),
            Request::Remove(k) => RequestView::Remove(k@),
        }
    }
}

impl View for Response {
    type V = ResponseView;

    open spec fn view(&self) -> ResponseView {
        match self {
            Response::Get(Some(v)) => ResponseView::Get(Some(v@)),
            Response::Get(None) => ResponseView::Get(None),
            Response::Done => ResponseView::Done,
            Response::Error(m) => ResponseView::Error(m@),
        }
    }
}

/// The bytes of a request.
pub open spec fn request_bytes(r: RequestView) -> Seq<u8> {
    match r {
        RequestView::Put(k, v) => seq![REQ_PUT] + text_bytes(k) + text_bytes(v),
        RequestView::Get(k) => seq![REQ_GET] + text_bytes(k),
        RequestView::Remove(k) => seq![REQ_REMOVE] + text_bytes(k),
    }
}

/// The bytes of a response.
pub open spec fn response_bytes(r: ResponseView) -> Seq<u8> {
    match r {
        ResponseView::Get(Some(v)) => seq![RESP_SOME] + text_bytes(v),
        ResponseView::Get(None) => seq![RESP_NONE],
        ResponseView::Done => seq![RESP_DONE],
        ResponseView::Error(m) => seq![RESP_ERROR] + text_bytes(m),
    }
}

/// The request at the start of `b`, and the number of bytes it takes.
pub open spec fn parse_request(b: Seq<u8>) -> Result<(RequestView, int), DecodeError> {
    if b.len() == 0 {
        Err(DecodeError::Truncated)
    } else if b[0] == REQ_PUT {
        match parse_text(b.skip(1)) {
            Ok((k, n1)) => match parse_text(b.skip(1 + n1)) {
                Ok((v, n2)) => Ok((RequestView::Put(k, v), 1 + n1 + n2)),
                Err(d) => Err(d),
            },
            Err(d) => Err(d),
        }
    } else if b[0] == REQ_GET {
        match parse_text(b.skip(1)) {
            Ok((k, n1)) => Ok((RequestView::Get(k), 1 + n1)),
            Err(d) => Err(d),
        }
    } else if b[0] == REQ_REMOVE {
        match parse_text(b.skip(1)) {
            Ok((k, n1)) => Ok((RequestView::Remove(k), 1 + n1)),
            Err(d) => Err(d),
        }
    } else {
        Err(DecodeError::UnknownTag)
    }
}

/// The response at the start of `b`, and the number of bytes it takes.
pub open spec fn parse_response(b: Seq<u8>) -> Result<(ResponseView, int), DecodeError> {
    if b.len() == 0 {
        Err(DecodeError::Truncated)
    } else if b[0] == RESP_DONE {
        Ok((ResponseView::Done, 1))
    } else if b[0] == RESP_NONE {
        Ok((ResponseView::Get(None), 1))
    } else if b[0] == RESP_SOME {
        match parse_text(b.skip(1)) {
            Ok((v, n1)) => Ok((ResponseView::Get(Some(v)), 1 + n1)),
            Err(d) => Err(d),
        }
    } else if b[0] == RESP_ERROR {
        match parse_text(b.skip(1)) {
            Ok((m, n1)) => Ok((ResponseView::Error(m), 1 + n1)),
            Err(d) => Err(d),
        }
    } else {
        Err(DecodeError::UnknownTag)
    }
}

/// The texts of a request fit the length field.
pub open spec fn request_fits(r: RequestView) -> bool {
    match r {
        RequestView::Put(k, v) => encode_utf8(k).len() <= u64::MAX && encode_utf8(v).len() <= u64::MAX,
        RequestView::Get(k) => encode_utf8(k).len() <= u64::MAX,
        RequestView::Remove(k) => encode_utf8(k).len() <= u64::MAX,
    }
}

/// The text of a response fits the length field.
pub open spec fn response_fits(r: ResponseView) -> bool {
    match r {
        ResponseView::Get(Some(v)) => encode_utf8(v).len() <= u64::MAX,
        ResponseView::Error(m) => encode_utf8(m).len() <= u64::MAX,
        _ => true,
    }
}

/// A request is read back from its bytes, whatever follows them.
pub proof fn lemma_request_round_trip(r: RequestView, rest: Seq<u8>)
    requires
        request_fits(r),
    ensures
        parse_request(request_bytes(r) + rest) == Ok::<(RequestView, int), DecodeError>(
            (r, request_bytes(r).len() as int),
        ),
{
    vstd::bytes::lemma_auto_spec_u64_to_from_le_bytes();
    let all = request_bytes(r) + rest;
    match r {
        RequestView::Put(k, v) => {
            assert(all.skip(1) =~= text_bytes(k) + (text_bytes(v) + rest));
            lemma_text_round_trip(k, text_bytes(v) + rest);
            let n1: int = 8 + encode_utf8(k).len() as int;
            assert(text_bytes(k).len() == n1);
            assert(all.skip(1 + n1) =~= text_bytes(v) + rest);
            lemma_text_round_trip(v, rest);
        },
        RequestView::Get(k) => {
            assert(all.skip(1) =~= text_bytes(k) + rest);
            lemma_text_round_trip(k, rest);
        },
        RequestView::Remove(k) => {
            assert(all.skip(1) =~= text_bytes(k) + rest);
            lemma_text_round_trip(k, rest);
        },
    }
}

/// A response is read back from its bytes, whatever follows them.
pub proof fn lemma_response_round_trip(r: ResponseView, rest: Seq<u8>)
    requires
        response_fits(r),
    ensures
        parse_response(response_bytes(r) + rest) == Ok::<(ResponseView, int), DecodeError>(
            (r, response_bytes(r).len() as int),
        ),
{
    vstd::bytes::lemma_auto_spec_u64_to_from_le_bytes();
    let all = response_bytes(r) + rest;
    match r {
        ResponseView::Get(Some(v)) => {
            assert(all.skip(1) =~= text_bytes(v) + rest);
            lemma_text_round_trip(v, rest);
        },
        ResponseView::Error(m) => {
            assert(all.skip(1) =~= text_bytes(m) + rest);
            lemma_text_round_trip(m, rest);
        },
        _ => {},
    }
}

impl Request {
    /// The bytes of this request.
    pub fn to_bytes(&self) -> (r: Vec<u8>)
        ensures
            r@ == request_bytes(self@),
            request_fits(self@),
    {
        let mut out: Vec<u8> = Vec::new();
        match self {
            Request::Put(k, v) => {
                out.push(REQ_PUT);
                push_text(&mut out, k);
                push_text(&mut out, v);
            },
            Request::Get(k) => {
                out.push(REQ_GET);
                push_text(&mut out, k);
            },
            Request::Remove(k) => {
                out.push(REQ_REMOVE);
                push_text(&mut out, k);
            },
        }
        proof {
            match self@ {
                RequestView::Put(k, v) => {
                    assert(out@ =~= seq![REQ_PUT] + text_bytes(k) + text_bytes(v));
                },
                RequestView::Get(k) => {
                    assert(out@ =~= seq![REQ_GET] + text_bytes(k));
                },
                RequestView::Remove(k) => {
                    assert(out@ =~= seq![REQ_REMOVE] + text_bytes(k));
                },
            }
        }
        out
    }

    /// Reads the request at `off`: `None` at the end of the bytes, else the
    /// request and the offset right after it.
    pub fn read_at(buf: &[u8], off: usize) -> (r: Result<Option<(Request, usize)>, DecodeError>)
        requires
            off <= buf@.len(),
        ensures
            off == buf@.len() ==> r == Ok::<Option<(Request, usize)>, DecodeError>(None),
            off < buf@.len() ==> match parse_request(buf@.skip(off as int)) {
                Ok((q, n)) => r is Ok && r->Ok_0 is Some && r->Ok_0->Some_0.0@ == q
                    && r->Ok_0->Some_0.1 == off + n,
                Err(d) => r == Err::<Option<(Request, usize)>, DecodeError>(d),
            },
    {
        if off == buf.len() {
            return Ok(None);
        }
        let tag = buf[off];
        let ghost b = buf@.skip(off as int);
        assert(b.skip(1) =~= buf@.skip(off + 1));
        if tag == REQ_PUT {
            let (k, mid) = match read_text(buf, off + 1) {
                Ok(x) => x,
                Err(d) => return Err(d),
            };
            assert(b.skip(mid - off) =~= buf@.skip(mid as int));
            let (v, end) = match read_text(buf, mid) {
                Ok(x) => x,
                Err(d) => return Err(d),
            };
            Ok(Some((Request::Put(k, v), end)))
        } else if tag == REQ_GET {
            match read_text(buf, off + 1) {
                Ok((k, end)) => Ok(Some((Request::Get(k), end))),
                Err(d) => Err(d),
            }
        } else if tag == REQ_REMOVE {
            match read_text(buf, off + 1) {
                Ok((k, end)) => Ok(Some((Request::Remove(k), end))),
                Err(d) => Err(d),
            }
        } else {
            Err(DecodeError::UnknownTag)
        }
    }
}

impl Response {
    /// The bytes of this response.
    pub fn to_bytes(&self) -> (r: Vec<u8>)
        ensures
            r@ == response_bytes(self@),
            response_fits(self@),
    {
        let mut out: Vec<u8> = Vec::new();
        match self {
            Response::Get(Some(v)) => {
                out.push(RESP_SOME);
                push_text(&mut out, v);
                assert(out@ =~= seq![RESP_SOME] + text_bytes(v@));
            },
            Response::Get(None) => {
                out.push(RESP_NONE);
                assert(out@ =~= seq![RESP_NONE]);
            },
            Response::Done => {
                out.push(RESP_DONE);
                assert(out@ =~= seq![RESP_DONE]);
            },
            Response::Error(m) => {
                out.push(RESP_ERROR);
                push_text(&mut out, m);
                assert(out@ =~= seq![RESP_ERROR] + text_bytes(m@));
            },
        }
        out
    }

    /// Reads the response at `off`: `None` at the end of the bytes, else the
    /// response and the offset right after it.
    pub fn read_at(buf: &[u8], off: usize) -> (r: Result<Option<(Response, usize)>, DecodeError>)
        requires
            off <= buf@.len(),
        ensures
            off == buf@.len() ==> r == Ok::<Option<(Response, usize)>, DecodeError>(None),
            off < buf@.len() ==> match parse_response(buf@.skip(off as int)) {
                Ok((q, n)) => r is Ok && r->Ok_0 is Some && r->Ok_0->Some_0.0@ == q
                    && r->Ok_0->Some_0.1 == off + n,
                Err(d) => r == Err::<Option<(Response, usize)>, DecodeError>(d),
            },
    {
        if off == buf.len() {
            return Ok(None);
        }
        let tag = buf[off];
        let ghost b = buf@.skip(off as int);
        assert(b.skip(1) =~= buf@.skip(off + 1));
        if tag == RESP_DONE {
            Ok(Some((Response::Done, off + 1)))
        } else if tag == RESP_NONE {
            Ok(Some((Response::Get(None), off + 1)))
        } else if tag == RESP_SOME {
            match read_text(buf, off + 1) {
                Ok((v, end)) => Ok(Some((Response::Get(Some(v)), end))),
                Err(d) => Err(d),
            }
        } else if tag == RESP_ERROR {
            match read_text(buf, off + 1) {
                Ok((m, end)) => Ok(Some((Response::Error(m), end))),
                Err(d) => Err(d),
            }
        } else {
            Err(DecodeError::UnknownTag)
        }
    }
}

} // verus!
