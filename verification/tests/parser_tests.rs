use db_server::{parse_get, parse_request, parse_set, ParseError, Request, ServerError};

#[test]
fn get_request_parses() {
    let r = parse_get("GET /get?key=foo HTTP/1.1");
    assert_eq!(r.unwrap(), "foo");
}

#[test]
fn set_request_parses() {
    let r = parse_set("GET /set?a=b HTTP/1.1");
    let (key, value) = r.unwrap();
    assert_eq!(key, "a");
    assert_eq!(value, "b");
}

#[test]
fn get_with_nothing_after_marker_is_missing_key() {
    let r = parse_get("GET /get?key= HTTP/1.1");
    assert!(matches!(r, Err(ParseError::MissingKey)));
}

#[test]
fn get_with_nothing_at_line_end_is_missing_key() {
    let r = parse_get("GET /get?key=");
    assert!(matches!(r, Err(ParseError::MissingKey)));
}

#[test]
fn set_without_equals_is_malformed() {
    let r = parse_set("GET /set?ab HTTP/1.1");
    assert!(matches!(r, Err(ParseError::InvalidRequest { code: 3 })));
}

#[test]
fn get_with_repeated_marker_is_malformed() {
    let r = parse_get("GET /get?key=akey=b HTTP/1.1");
    assert!(matches!(r, Err(ParseError::InvalidRequest { code: 1 })));
}

#[test]
fn set_with_repeated_marker_is_malformed() {
    let r = parse_set("GET /set?set?a=b HTTP/1.1");
    assert!(matches!(r, Err(ParseError::InvalidRequest { code: 2 })));
}

#[test]
fn set_with_no_payload_is_malformed() {
    let r = parse_set("GET /set?");
    assert!(matches!(r, Err(ParseError::InvalidRequest { code: 4 })));
    let r = parse_set("GET /set?   ");
    assert!(matches!(r, Err(ParseError::InvalidRequest { code: 4 })));
}

#[test]
fn set_with_two_equals_is_malformed() {
    let r = parse_set("GET /set?a=b=c HTTP/1.1");
    assert!(matches!(r, Err(ParseError::InvalidRequest { code: 3 })));
}

#[test]
fn set_with_empty_value_is_accepted() {
    let (key, value) = parse_set("GET /set?a= HTTP/1.1").unwrap();
    assert_eq!(key, "a");
    assert_eq!(value, "");
}

#[test]
fn set_with_empty_key_is_accepted() {
    let (key, value) = parse_set("GET /set?=v HTTP/1.1").unwrap();
    assert_eq!(key, "");
    assert_eq!(value, "v");
}

#[test]
fn get_key_ends_at_first_whitespace() {
    let key = parse_get("GET /get?key=foo\tbar HTTP/1.1").unwrap();
    assert_eq!(key, "foo");
}

#[test]
fn messages_carry_the_reason_code() {
    let e = ParseError::InvalidRequest { code: 3 };
    assert_eq!(e.message(), "Request was improperly formatted: 3");
    assert_eq!(ParseError::MissingKey.message(), "No key found in request");
}

#[test]
fn request_dispatches_to_get() {
    let r = parse_request("GET /get?key=color HTTP/1.1\r\nHost: example\r\n\r\n");
    match r.unwrap() {
        Request::Get(key) => assert_eq!(key, "color"),
        other => panic!("expected a get request, got {:?}", other),
    }
}

#[test]
fn request_dispatches_to_set() {
    let r = parse_request("GET /set?color=red HTTP/1.1\r\nHost: example\r\n\r\n");
    match r.unwrap() {
        Request::Put(key, value) => {
            assert_eq!(key, "color");
            assert_eq!(value, "red");
        },
        other => panic!("expected a set request, got {:?}", other),
    }
}

#[test]
fn unrecognized_verb_is_reported_apart() {
    let r = parse_request("GET /other HTTP/1.1\r\n\r\n");
    assert!(matches!(r, Err(ServerError::InvalidRequest)));
    let r = parse_request("POST /get?key=a HTTP/1.1\r\n\r\n");
    assert!(matches!(r, Err(ServerError::InvalidRequest)));
}

#[test]
fn empty_request_is_reported() {
    let r = parse_request("");
    assert!(matches!(r, Err(ServerError::NoRequestFound)));
}

#[test]
fn malformed_request_carries_the_parse_reason() {
    let r = parse_request("GET /get?key= HTTP/1.1\r\n\r\n");
    match r {
        Err(ServerError::ParseError { reason }) => {
            assert_eq!(reason, "No key found in request");
        },
        other => panic!("expected a parse failure, got {:?}", other),
    }
    let r = parse_request("GET /set?ab HTTP/1.1\r\n\r\n");
    match r {
        Err(ServerError::ParseError { reason }) => {
            assert_eq!(reason, "Request was improperly formatted: 3");
        },
        other => panic!("expected a parse failure, got {:?}", other),
    }
}

#[test]
fn only_the_first_line_matters() {
    let r = parse_request("GET /get?key=a HTTP/1.1\nGET /set?b=c HTTP/1.1\n");
    match r.unwrap() {
        Request::Get(key) => assert_eq!(key, "a"),
        other => panic!("expected a get request, got {:?}", other),
    }
}
