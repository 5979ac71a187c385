//! The wire protocol: requests and responses, each sent as a frame that
//! starts with the length of its body in eight bytes.

use vstd::prelude::*;
use crate::codec::{
    field_bytes, lemma_field_round_trip, lemma_u64_round_trip, parse_field, push_bytes, push_field,
    push_u64, read_field, read_u64, text_bytes, u64_bytes, u64_of,
};
use crate::error::StoreError;

verus! {

/// A request from a client.
#[derive(Debug)]
pub enum Request {
    Get { key: String },
    Put { key: String, value: String },
    Remove { key: String },
}

/// The mathematical value of a [`Request`].
pub enum RequestModel {
    Get { key: Seq<char> },
    Put { key: Seq<char>, value: Seq<char> },
    Remove { key: Seq<char> },
}

impl View for Request {
    type V = RequestModel;

    open spec fn view(&self) -> RequestModel {
        match self {
            Request::Get { key } => RequestModel::Get { key: key@ },
            Request::Put { key, value } => RequestModel::Put { key: key@, value: value@ },
            Request::Remove { key } => RequestModel::Remove { key: key@ },
        }
    }
}

/// The server's answer to a request: its result, or the text of an error.
#[derive(Debug)]
pub enum Response<T> {
    Success(T),
    Failure(String),
}

/// The text of an optional value.
pub open spec fn opt_text(o: Option<String>) -> Option<Seq<char>> {
    match o {
        Some(s) => Some(s@),
        None => None,
    }
}

/// A frame: the length of the body in eight bytes, then the body.
pub open spec fn frame(body: Seq<u8>) -> Seq<u8> {
    u64_bytes(body.len() as u64) + body
}

/// The body of the frame at the start of `b`, and the length of the whole frame.
pub open spec fn parse_frame(b: Seq<u8>) -> Option<(Seq<u8>, int)> {
    if b.len() < 8 {
        None
    } else {
        let n = u64_of(b) as int;
        if b.len() - 8 < n {
            None
        } else {
            Some((b.subrange(8, 8 + n), 8 + n))
        }
    }
}

/// A frame reads back as its body, whatever follows it.
pub proof fn lemma_frame_round_trip(body: Seq<u8>, rest: Seq<u8>)
    requires
        body.len() <= u64::MAX,
    ensures
        parse_frame(frame(body) + rest) == Some((body, frame(body).len() as int)),
{
    let b = frame(body) + rest;
    lemma_u64_round_trip(body.len() as u64);
    assert(b.subrange(0, 8) =~= u64_bytes(body.len() as u64));
    assert(u64_of(b) == u64_of(b.subrange(0, 8)));
    assert(b.subrange(8, 8 + body.len() as int) =~= body);
}

/// All texts of the request fit the eight-byte lengths of its fields.
pub open spec fn request_fits(r: RequestModel) -> bool {
    match r {
        RequestModel::Get { key } => text_bytes(key).len() <= u64::MAX,
        RequestModel::Put { key, value } => text_bytes(key).len() <= u64::MAX && text_bytes(
            value,
        ).len() <= u64::MAX,
        RequestModel::Remove { key } => text_bytes(key).len() <= u64::MAX,
    }
}

/// The body of a request: a tag, then its fields.
pub open spec fn request_body(r: RequestModel) -> Seq<u8> {
    match r {
        RequestModel::Get { key } => seq![0u8] + field_bytes(key),
        RequestModel::Put { key, value } => seq![1u8] + field_bytes(key) + field_bytes(value),
        RequestModel::Remove { key } => seq![2u8] + field_bytes(key),
    }
}

/// The request that a body holds, with nothing left over.
pub open spec fn parse_request_body(b: Seq<u8>) -> Option<RequestModel> {
    if b.len() < 1 {
        None
    } else {
        match parse_field(b.subrange(1, b.len() as int)) {
            Some((key, n1)) => if b[0] == 0 && 1 + n1 == b.len() {
                Some(RequestModel::Get { key })
            } else if b[0] == 2 && 1 + n1 == b.len() {
                Some(RequestModel::Remove { key })
            } else if b[0] == 1 {
                match parse_field(b.subrange(1 + n1, b.len() as int)) {
                    Some((value, n2)) => if 1 + n1 + n2 == b.len() {
                        Some(RequestModel::Put { key, value })
                    } else {
                        None
                    },
                    None => None,
                }
            } else {
                None
            },
            None => None,
        }
    }
}

/// The bytes of a request on the wire.
pub open spec fn request_bytes(r: RequestModel) -> Seq<u8> {
    frame(request_body(r))
}

/// The request at the start of `b`, and the length of its frame.
pub open spec fn parse_request(b: Seq<u8>) -> Option<(RequestModel, int)> {
    match parse_frame(b) {
        Some((body, n)) => match parse_request_body(body) {
            Some(r) => Some((r, n)),
            None => None,
        },
        None => None,
    }
}

/// The requests of a stream of whole frames, in order.
pub open spec fn parse_requests(b: Seq<u8>) -> Option<Seq<RequestModel>>
    decreases b.len(),
{
    if b.len() == 0 {
        Some(Seq::empty())
    } else {
        match parse_request(b) {
            Some((r, n)) => if 0 < n <= b.len() {
                match parse_requests(b.subrange(n, b.len() as int)) {
                    Some(rs) => Some(seq![r] + rs),
                    None => None,
                }
            } else {
                None
            },
            None => None,
        }
    }
}

/// The bytes of requests sent one after another.
pub open spec fn requests_bytes(rs: Seq<RequestModel>) -> Seq<u8>
    decreases rs.len(),
{
    if rs.len() == 0 {
        Seq::empty()
    } else {
        request_bytes(rs[0]) + requests_bytes(rs.drop_first())
    }
}

/// A request's body reads back as the request.
pub proof fn lemma_request_body_round_trip(r: RequestModel)
    requires
        request_fits(r),
    ensures
        parse_request_body(request_body(r)) == Some(r),
{
    let b = request_body(r);
    match r {
        RequestModel::Get { key } => {
            assert(b.subrange(1, b.len() as int) =~= field_bytes(key) + Seq::<u8>::empty());
            lemma_field_round_trip(key, Seq::empty());
        },
        RequestModel::Remove { key } => {
            assert(b.subrange(1, b.len() as int) =~= field_bytes(key) + Seq::<u8>::empty());
            lemma_field_round_trip(key, Seq::empty());
        },
        RequestModel::Put { key, value } => {
            let fk = field_bytes(key);
            let fv = field_bytes(value);
            assert(b.subrange(1, b.len() as int) =~= fk + fv);
            lemma_field_round_trip(key, fv);
            assert(b.subrange(1 + fk.len() as int, b.len() as int) =~= fv + Seq::<u8>::empty());
            lemma_field_round_trip(value, Seq::empty());
        },
    }
}

/// A request on the wire reads back as the request, whatever follows it.
pub proof fn lemma_request_round_trip(r: RequestModel, rest: Seq<u8>)
    requires
        request_fits(r),
        request_body(r).len() <= u64::MAX,
    ensures
        parse_request(request_bytes(r) + rest) == Some((r, request_bytes(r).len() as int)),
{
    lemma_frame_round_trip(request_body(r), rest);
    lemma_request_body_round_trip(r);
}

/// Requests sent back to back on one connection are read, in the same
/// order, as the same requests.
pub proof fn lemma_requests_round_trip(rs: Seq<RequestModel>)
    requires
        forall|i: int|
            0 <= i < rs.len() ==> request_fits(#[trigger] rs[i]) && request_body(rs[i]).len()
                <= u64::MAX,
    ensures
        parse_requests(requests_bytes(rs)) == Some(rs),
    decreases rs.len(),
{
    if rs.len() > 0 {
        let tail = rs.drop_first();
        assert forall|i: int| 0 <= i < tail.len() implies request_fits(#[trigger] tail[i])
            && request_body(tail[i]).len() <= u64::MAX by {
            assert(tail[i] == rs[i + 1]);
        }
        lemma_requests_round_trip(tail);
        assert(request_fits(rs[0]));
        let b = requests_bytes(rs);
        let n = request_bytes(rs[0]).len() as int;
        lemma_request_round_trip(rs[0], requests_bytes(tail));
        assert(b.subrange(n, b.len() as int) =~= requests_bytes(tail));
        assert(seq![rs[0]] + tail =~= rs);
    } else {
        assert(requests_bytes(rs).len() == 0);
        assert(rs =~= Seq::<RequestModel>::empty());
    }
}

impl Request {
    /// The bytes of this request on the wire.
    pub fn encode(&self) -> (r: Vec<u8>)
        ensures
            r@ == request_bytes(self@),
            request_fits(self@),
            request_body(self@).len() <= u64::MAX,
    {
        let mut body: Vec<u8> = Vec::new();
        match self {
            Request::Get { key } => {
                body.push(0u8);
                push_field(&mut body, key.as_str());
            },
            Request::Put { key, value } => {
                body.push(1u8);
                push_field(&mut body, key.as_str());
                push_field(&mut body, value.as_str());
            },
            Request::Remove { key } => {
                body.push(2u8);
                push_field(&mut body, key.as_str());
            },
        }
        assert(body@ =~= request_body(self@));
        let mut out: Vec<u8> = Vec::new();
        push_u64(&mut out, body.len() as u64);
        push_bytes(&mut out, body.as_slice());
        assert(out@ =~= request_bytes(self@));
        out
    }
}

/// The length of the body of the frame whose header is at the start of
/// `header`; `None` where fewer than eight bytes are given.
pub fn frame_length(header: &[u8]) -> (r: Option<u64>)
    ensures
        header@.len() < 8 ==> r is None,
        header@.len() >= 8 ==> r == Some(u64_of(header@)),
{
    if header.len() < 8 {
        None
    } else {
        let n = read_u64(header, 0);
        proof {
            let h = header@.subrange(0, 8);
            assert(h[0] == header@[0] && h[1] == header@[1] && h[2] == header@[2] && h[3]
                == header@[3] && h[4] == header@[4] && h[5] == header@[5] && h[6] == header@[6]
                && h[7] == header@[7]);
        }
        Some(n)
    }
}

/// Reads the request held in a frame's body.
pub fn decode_request_body(body: &[u8]) -> (r: Result<Request, StoreError>)
    ensures
        match parse_request_body(body@) {
            Some(m) => r matches Ok(x) && x@ == m,
            None => r matches Err(StoreError::Serialization),
        },
{
    let len = body.len();
    if len < 1 {
        return Err(StoreError::Serialization);
    }
    let (key, p1) = match read_field(body, 1) {
        Some(f) => f,
        None => return Err(StoreError::Serialization),
    };
    let tag = body[0];
    if tag == 0 && p1 == len {
        return Ok(Request::Get { key });
    }
    if tag == 2 && p1 == len {
        return Ok(Request::Remove { key });
    }
    if tag != 1 {
        return Err(StoreError::Serialization);
    }
    let ghost n1 = p1 - 1;
    assert(body@.subrange(p1 as int, len as int) =~= body@.subrange(1, len as int).subrange(
        n1,
        len - 1,
    ));
    assert(body@.subrange(1 + n1, len as int) =~= body@.subrange(p1 as int, len as int));
    let (value, p2) = match read_field(body, p1) {
        Some(f) => f,
        None => return Err(StoreError::Serialization),
    };
    if p2 != len {
        return Err(StoreError::Serialization);
    }
    Ok(Request::Put { key, value })
}

/// Reads the request whose frame starts at `pos`, and the position just past it.
pub fn decode_request(buf: &[u8], pos: usize) -> (r: Result<(Request, usize), StoreError>)
    requires
        pos <= buf@.len(),
    ensures
        match parse_request(buf@.subrange(pos as int, buf@.len() as int)) {
            Some((m, n)) => r matches Ok((x, e)) && x@ == m && e == pos + n,
            None => r matches Err(StoreError::Serialization),
        },
{
    let ghost b = buf@.subrange(pos as int, buf@.len() as int);
    if buf.len() - pos < 8 {
        return Err(StoreError::Serialization);
    }
    let n = read_u64(buf, pos);
    assert(buf@.subrange(pos as int, pos + 8) =~= b.subrange(0, 8));
    assert(u64_of(b) == n);
    if ((buf.len() - pos - 8) as u64) < n {
        return Err(StoreError::Serialization);
    }
    let end = pos + 8 + n as usize;
    let body = &buf[pos + 8..end];
    assert(body@ =~= b.subrange(8, 8 + n));
    match decode_request_body(body) {
        Ok(req) => Ok((req, end)),
        Err(e) => Err(e),
    }
}

/// Reads every request of a stream of whole frames, in order.
pub fn decode_requests(buf: &[u8]) -> (r: Result<Vec<Request>, StoreError>)
    ensures
        match parse_requests(buf@) {
            Some(ms) => r matches Ok(v) && v@.len() == ms.len() && forall|i: int|
                0 <= i < ms.len() ==> (#[trigger] v@[i])@ == ms[i],
            None => r matches Err(StoreError::Serialization),
        },
{
    let mut out: Vec<Request> = Vec::new();
    let mut pos: usize = 0;
    let n = buf.len();
    proof {
        assert(buf@.subrange(0, n as int) =~= buf@);
    }
    while pos < n
        invariant
            n == buf@.len(),
            pos <= n,
            parse_requests(buf@) == match parse_requests(buf@.subrange(pos as int, n as int)) {
                Some(rest) => Some(out@.map_values(|x: Request| x@) + rest),
                None => None,
            },
        decreases n - pos,
    {
        let ghost rest = buf@.subrange(pos as int, n as int);
        let (req, end) = match decode_request(buf, pos) {
            Ok(d) => d,
            Err(e) => return Err(e),
        };
        proof {
            assert(rest.subrange(end - pos, rest.len() as int) =~= buf@.subrange(
                end as int,
                n as int,
            ));
        }
        let ghost before = out@;
        out.push(req);
        proof {
            assert(out@.map_values(|x: Request| x@) =~= before.map_values(|x: Request| x@).push(
                req@,
            ));
            match parse_requests(buf@.subrange(end as int, n as int)) {
                Some(more) => {
                    assert(before.map_values(|x: Request| x@) + (seq![req@] + more)
                        =~= out@.map_values(|x: Request| x@) + more);
                },
                None => {},
            }
        }
        pos = end;
    }
    proof {
        assert(buf@.subrange(n as int, n as int).len() == 0);
        assert(out@.map_values(|x: Request| x@) + Seq::<RequestModel>::empty() =~= out@.map_values(
            |x: Request| x@,
        ));
    }
    Ok(out)
}

/// The body of a response to a `Get`: a tag, then the value if there is one,
/// or the text of the error.
pub open spec fn get_response_body(r: Response<Option<String>>) -> Seq<u8> {
    match r {
        Response::Success(None) => seq![0u8, 0u8],
        Response::Success(Some(v)) => seq![0u8, 1u8] + field_bytes(v@),
        Response::Failure(m) => seq![1u8] + field_bytes(m@),
    }
}

/// The body of a response to a `Put` or a `Remove`: a tag, then the text of
/// the error if there is one.
pub open spec fn unit_response_body(r: Response<()>) -> Seq<u8> {
    match r {
        Response::Success(()) => seq![0u8],
        Response::Failure(m) => seq![1u8] + field_bytes(m@),
    }
}

/// What the body of a response to a `Get` holds: the value that was found,
/// or the text of an error; `None` where it is no such body.
pub open spec fn parse_get_response_body(b: Seq<u8>) -> Option<
    Result<Option<Seq<char>>, Seq<char>>,
> {
    if b.len() == 2 && b[0] == 0 && b[1] == 0 {
        Some(Ok(None))
    } else if b.len() >= 2 && b[0] == 0 && b[1] == 1 {
        match parse_field(b.subrange(2, b.len() as int)) {
            Some((v, n)) => if 2 + n == b.len() {
                Some(Ok(Some(v)))
            } else {
                None
            },
            None => None,
        }
    } else if b.len() >= 1 && b[0] == 1 {
        match parse_field(b.subrange(1, b.len() as int)) {
            Some((m, n)) => if 1 + n == b.len() {
                Some(Err(m))
            } else {
                None
            },
            None => None,
        }
    } else {
        None
    }
}

/// What the body of a response to a `Put` or a `Remove` holds: success, or
/// the text of an error; `None` where it is no such body.
pub open spec fn parse_unit_response_body(b: Seq<u8>) -> Option<Result<(), Seq<char>>> {
    if b.len() == 1 && b[0] == 0 {
        Some(Ok(()))
    } else if b.len() >= 1 && b[0] == 1 {
        match parse_field(b.subrange(1, b.len() as int)) {
            Some((m, n)) => if 1 + n == b.len() {
                Some(Err(m))
            } else {
                None
            },
            None => None,
        }
    } else {
        None
    }
}

/// A response to a `Get` reads back as what it carries.
pub proof fn lemma_get_response_round_trip(r: Response<Option<String>>)
    requires
        match r {
            Response::Success(Some(v)) => text_bytes(v@).len() <= u64::MAX,
            Response::Success(None) => true,
            Response::Failure(m) => text_bytes(m@).len() <= u64::MAX,
        },
    ensures
        parse_get_response_body(get_response_body(r)) == match r {
            Response::Success(v) => Some(Ok::<Option<Seq<char>>, Seq<char>>(opt_text(v))),
            Response::Failure(m) => Some(Err(m@)),
        },
{
    let b = get_response_body(r);
    match r {
        Response::Success(Some(v)) => {
            assert(b.subrange(2, b.len() as int) =~= field_bytes(v@) + Seq::<u8>::empty());
            lemma_field_round_trip(v@, Seq::empty());
        },
        Response::Success(None) => {},
        Response::Failure(m) => {
            assert(b.subrange(1, b.len() as int) =~= field_bytes(m@) + Seq::<u8>::empty());
            lemma_field_round_trip(m@, Seq::empty());
        },
    }
}

/// A response to a `Put` or a `Remove` reads back as what it carries.
pub proof fn lemma_unit_response_round_trip(r: Response<()>)
    requires
        r matches Response::Failure(m) ==> text_bytes(m@).len() <= u64::MAX,
    ensures
        parse_unit_response_body(unit_response_body(r)) == match r {
            Response::Success(()) => Some(Ok::<(), Seq<char>>(())),
            Response::Failure(m) => Some(Err(m@)),
        },
{
    let b = unit_response_body(r);
    if let Response::Failure(m) = r {
        assert(b.subrange(1, b.len() as int) =~= field_bytes(m@) + Seq::<u8>::empty());
        lemma_field_round_trip(m@, Seq::empty());
    }
}

/// Appends `body` as a frame.
fn push_frame(out: &mut Vec<u8>, body: &Vec<u8>)
    ensures
        final(out)@ == old(out)@ + frame(body@),
{
    push_u64(out, body.len() as u64);
    push_bytes(out, body.as_slice());
    assert(final(out)@ =~= old(out)@ + frame(body@));
}

/// The bytes of a response to a `Get` on the wire.
pub fn encode_get_response(r: &Response<Option<String>>) -> (out: Vec<u8>)
    ensures
        out@ == frame(get_response_body(*r)),
{
    let mut body: Vec<u8> = Vec::new();
    match r {
        Response::Success(None) => {
            body.push(0u8);
            body.push(0u8);
        },
        Response::Success(Some(v)) => {
            body.push(0u8);
            body.push(1u8);
            push_field(&mut body, v.as_str());
        },
        Response::Failure(m) => {
            body.push(1u8);
            push_field(&mut body, m.as_str());
        },
    }
    assert(body@ =~= get_response_body(*r));
    let mut out: Vec<u8> = Vec::new();
    push_frame(&mut out, &body);
    assert(out@ =~= frame(body@));
    out
}

/// The bytes of a response to a `Put` or a `Remove` on the wire.
pub fn encode_unit_response(r: &Response<()>) -> (out: Vec<u8>)
    ensures
        out@ == frame(unit_response_body(*r)),
{
    let mut body: Vec<u8> = Vec::new();
    match r {
        Response::Success(()) => {
            body.push(0u8);
        },
        Response::Failure(m) => {
            body.push(1u8);
            push_field(&mut body, m.as_str());
        },
    }
    assert(body@ =~= unit_response_body(*r));
    let mut out: Vec<u8> = Vec::new();
    push_frame(&mut out, &body);
    assert(out@ =~= frame(body@));
    out
}

/// Reads the response to a `Get` held in a frame's body.
pub fn decode_get_response(body: &[u8]) -> (r: Result<Response<Option<String>>, StoreError>)
    ensures
        match parse_get_response_body(body@) {
            Some(Ok(v)) => r matches Ok(Response::Success(x)) && opt_text(x) == v,
            Some(Err(m)) => r matches Ok(Response::Failure(t)) && t@ == m,
            None => r matches Err(StoreError::Serialization),
        },
{
    let len = body.len();
    if len == 2 && body[0] == 0 && body[1] == 0 {
        return Ok(Response::Success(None));
    }
    if len >= 2 && body[0] == 0 && body[1] == 1 {
        return match read_field(body, 2) {
            Some((v, end)) => if end == len {
                Ok(Response::Success(Some(v)))
            } else {
                Err(StoreError::Serialization)
            },
            None => Err(StoreError::Serialization),
        };
    }
    if len >= 1 && body[0] == 1 {
        return match read_field(body, 1) {
            Some((m, end)) => if end == len {
                Ok(Response::Failure(m))
            } else {
                Err(StoreError::Serialization)
            },
            None => Err(StoreError::Serialization),
        };
    }
    Err(StoreError::Serialization)
}

/// Reads the response to a `Put` or a `Remove` held in a frame's body.
pub fn decode_unit_response(body: &[u8]) -> (r: Result<Response<()>, StoreError>)
    ensures
        match parse_unit_response_body(body@) {
            Some(Ok(())) => r matches Ok(Response::Success(())),
            Some(Err(m)) => r matches Ok(Response::Failure(t)) && t@ == m,
            None => r matches Err(StoreError::Serialization),
        },
{
    let len = body.len();
    if len == 1 && body[0] == 0 {
        return Ok(Response::Success(()));
    }
    if len >= 1 && body[0] == 1 {
        return match read_field(body, 1) {
            Some((m, end)) => if end == len {
                Ok(Response::Failure(m))
            } else {
                Err(StoreError::Serialization)
            },
            None => Err(StoreError::Serialization),
        };
    }
    Err(StoreError::Serialization)
}

/// The body of the response to a `Get` whose result was `r`.
pub open spec fn get_result_body(r: Result<Option<String>, StoreError>) -> Seq<u8> {
    match r {
        Ok(None) => seq![0u8, 0u8],
        Ok(Some(v)) => seq![0u8, 1u8] + field_bytes(v@),
        Err(e) => seq![1u8] + field_bytes(e.message_text()),
    }
}

/// The body of the response to a `Put` or a `Remove` whose result was `r`.
pub open spec fn unit_result_body(r: Result<(), StoreError>) -> Seq<u8> {
    match r {
        Ok(()) => seq![0u8],
        Err(e) => seq![1u8] + field_bytes(e.message_text()),
    }
}

/// The response that the server sends for the result of a `Get`.
pub fn get_response(r: Result<Option<String>, StoreError>) -> (out: Response<Option<String>>)
    ensures
        get_response_body(out) == get_result_body(r),
        match r {
            Ok(v) => out == Response::Success(v),
            Err(e) => out matches Response::Failure(m) && m@ == e.message_text(),
        },
{
    match r {
        Ok(v) => Response::Success(v),
        Err(e) => Response::Failure(e.message()),
    }
}

/// The response that the server sends for the result of a `Put` or a `Remove`.
pub fn unit_response(r: Result<(), StoreError>) -> (out: Response<()>)
    ensures
        unit_response_body(out) == unit_result_body(r),
        match r {
            Ok(()) => out == Response::<()>::Success(()),
            Err(e) => out matches Response::Failure(m) && m@ == e.message_text(),
        },
{
    match r {
        Ok(()) => Response::Success(()),
        Err(e) => Response::Failure(e.message()),
    }
}

/// The result that a client takes from a response: the server's error text
/// becomes a `Message` error.
pub fn response_result<T>(r: Response<T>) -> (out: Result<T, StoreError>)
    ensures
        match r {
            Response::Success(v) => out == Ok::<T, StoreError>(v),
            Response::Failure(m) => out matches Err(StoreError::Message(t)) && t@ == m@,
        },
{
    match r {
        Response::Success(v) => Ok(v),
        Response::Failure(m) => Err(StoreError::Message(m)),
    }
}

} // verus!
