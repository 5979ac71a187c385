use std::collections::HashMap;

use kvs::engine::{respond, Engine};
use kvs::error::StoreError;
use kvs::protocol::{
    decode_get_response, decode_request, decode_requests, decode_unit_response,
    encode_get_response, encode_unit_response, frame_length, get_response, response_result,
    unit_response, Request, Response,
};

fn same(a: &Request, b: &Request) -> bool {
    match (a, b) {
        (Request::Get { key: x }, Request::Get { key: y }) => x == y,
        (Request::Remove { key: x }, Request::Remove { key: y }) => x == y,
        (Request::Put { key: x, value: v }, Request::Put { key: y, value: w }) => x == y && v == w,
        _ => false,
    }
}

fn body(frame: &[u8]) -> &[u8] {
    let n = frame_length(frame).unwrap() as usize;
    &frame[8..8 + n]
}

#[test]
fn requests_back_to_back_decode_in_order() {
    let reqs = vec![
        Request::Put { key: "a".to_string(), value: "1".to_string() },
        Request::Get { key: "a".to_string() },
        Request::Remove { key: "a".to_string() },
        Request::Get { key: "".to_string() },
    ];
    let mut stream = Vec::new();
    for r in &reqs {
        stream.extend_from_slice(&r.encode());
    }
    let back = decode_requests(&stream).unwrap();
    assert_eq!(back.len(), reqs.len());
    for (a, b) in reqs.iter().zip(back.iter()) {
        assert!(same(a, b));
    }
}

#[test]
fn request_frame_layout() {
    let bytes = Request::Get { key: "k".to_string() }.encode();
    assert_eq!(bytes, vec![10, 0, 0, 0, 0, 0, 0, 0, 0, 1, 0, 0, 0, 0, 0, 0, 0, b'k']);
    assert_eq!(frame_length(&bytes), Some(10));
    assert_eq!(frame_length(&bytes[..7]), None);
    let (r, end) = decode_request(&bytes, 0).unwrap();
    assert_eq!(end, bytes.len());
    assert!(same(&r, &Request::Get { key: "k".to_string() }));
}

#[test]
fn truncated_or_unknown_requests_are_rejected() {
    let bytes = Request::Put { key: "k".to_string(), value: "v".to_string() }.encode();
    assert!(matches!(decode_requests(&bytes[..bytes.len() - 1]), Err(StoreError::Serialization)));
    let mut bad = bytes.clone();
    bad[8] = 7;
    assert!(matches!(decode_request(&bad, 0), Err(StoreError::Serialization)));
    assert_eq!(decode_requests(&[]).unwrap().len(), 0);
}

#[test]
fn responses_round_trip() {
    let cases = vec![
        Response::Success(Some("v".to_string())),
        Response::Success(None),
        Response::Failure("key not found".to_string()),
    ];
    for c in cases {
        let bytes = encode_get_response(&c);
        let back = decode_get_response(body(&bytes)).unwrap();
        match (c, back) {
            (Response::Success(a), Response::Success(b)) => assert_eq!(a, b),
            (Response::Failure(a), Response::Failure(b)) => assert_eq!(a, b),
            _ => panic!("response changed kind"),
        }
    }
    let ok = encode_unit_response(&Response::Success(()));
    assert!(matches!(decode_unit_response(body(&ok)), Ok(Response::Success(()))));
    let err = encode_unit_response(&Response::Failure("boom".to_string()));
    match decode_unit_response(body(&err)).unwrap() {
        Response::Failure(m) => assert_eq!(m, "boom"),
        _ => panic!("expected a failure"),
    }
}

#[test]
fn key_not_found_reply_text() {
    match unit_response(Err(StoreError::KeyNotFound)) {
        Response::Failure(m) => assert_eq!(m, "key not found"),
        _ => panic!("expected a failure"),
    }
    match get_response(Err(StoreError::Io("disk".to_string()))) {
        Response::Failure(m) => assert_eq!(m, "io error: disk"),
        _ => panic!("expected a failure"),
    }
    assert!(matches!(get_response(Ok(None)), Response::Success(None)));
    match response_result(Response::<()>::Failure("key not found".to_string())) {
        Err(StoreError::Message(m)) => assert_eq!(m, "key not found"),
        _ => panic!("expected a message"),
    }
}

struct MapEngine {
    map: HashMap<String, String>,
}

impl Engine for MapEngine {
    fn set(&mut self, key: String, value: String) -> Result<(), StoreError> {
        self.map.insert(key, value);
        Ok(())
    }

    fn get(&mut self, key: String) -> Result<Option<String>, StoreError> {
        Ok(self.map.get(&key).cloned())
    }

    fn remove(&mut self, key: String) -> Result<(), StoreError> {
        self.map.remove(&key).map(|_| ()).ok_or(StoreError::KeyNotFound)
    }
}

#[test]
fn respond_answers_each_request_in_order() {
    let mut engine = MapEngine { map: HashMap::new() };
    let r1 = respond(&mut engine, Request::Put { key: "a".to_string(), value: "1".to_string() });
    assert!(matches!(decode_unit_response(body(&r1)), Ok(Response::Success(()))));
    let r2 = respond(&mut engine, Request::Get { key: "a".to_string() });
    match decode_get_response(body(&r2)).unwrap() {
        Response::Success(v) => assert_eq!(v, Some("1".to_string())),
        _ => panic!("expected a value"),
    }
    let r3 = respond(&mut engine, Request::Remove { key: "missing".to_string() });
    match decode_unit_response(body(&r3)).unwrap() {
        Response::Failure(m) => assert_eq!(m, "key not found"),
        _ => panic!("expected a failure"),
    }
}
